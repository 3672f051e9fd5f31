//! What a directory lists and what can be looked up in it agree.
use vstd::prelude::*;

use crate::fs::lemma_found_child;
use crate::guarantees::one_file_changed;
use crate::inode::{indexed_below, Index, PathView, ShadowView, ROOT_INO};
use crate::mount::{dir_attr, lemma_child_index, FileView, SourceView};
use crate::names::{law_a_name_is_not_given_out_twice, seen_after, unique};
use crate::numbering::in_step;
use crate::section::{child_index, FrontMatterKind, SectionView};
use crate::state::{
    bare_mount, canonical_child, leaves_of, mount_of, roots_of, super_dir_at, super_entries,
    with_all_unplaced, with_unplaced, FsView, StepView,
};
use crate::supers::{
    child_ino, deeper_leaves, files_named, laid_out, leaves_size, lemma_deeper_smaller,
    lemma_other_smaller, other_leaves, with_files, Layout, SuperView,
};
use crate::vfs::{DirEntryView, Ino, Timestamp, VfsError};
use crate::visibility::law_every_directory_has_numbers;

verus! {

/// The names of the entries of a directory above the files.
pub open spec fn child_names(children: Seq<(Seq<char>, Ino)>) -> Seq<Seq<char>> {
    Seq::new(children.len(), |i: int| children[i].0)
}

/// Whether entries have different names, and `seen` holds just these.
pub open spec fn names_differ(children: Seq<(Seq<char>, Ino)>, seen: Set<Seq<char>>) -> bool {
    &&& child_names(children).no_duplicates()
    &&& seen == child_names(children).to_set()
}

/// Whether the entries of every directory above the files have different names.
pub open spec fn all_names_differ(dirs: Map<Ino, SuperView>) -> bool {
    forall|d: Ino| #[trigger]
        dirs.contains_key(d) ==> names_differ(dirs[d].children, dirs[d].seen)
}

proof fn lemma_no_names()
    ensures
        names_differ(Seq::empty(), Set::empty()),
{
    let none = Seq::<(Seq<char>, Ino)>::empty();
    assert(child_names(none) =~= Seq::empty());
    assert(child_names(none).to_set() =~= Set::empty());
}

/// One more entry gets a name of its own.
proof fn lemma_one_more_name(
    children: Seq<(Seq<char>, Ino)>,
    seen: Set<Seq<char>>,
    raw_name: Seq<char>,
    ino: Ino,
)
    requires
        names_differ(children, seen),
    ensures
        names_differ(children.push((unique(seen, raw_name), ino)), seen_after(seen, raw_name)),
{
    let names = child_names(children);
    let name = unique(seen, raw_name);
    let more = child_names(children.push((name, ino)));
    vstd::seq_lib::seq_to_set_is_finite(names);
    law_a_name_is_not_given_out_twice(seen, raw_name);
    assert(more =~= names.push(name));
    assert(!names.contains(name)) by {
        if names.contains(name) {
            assert(names.to_set().contains(name));
        }
    }
    assert(more.to_set() =~= seen.insert(name)) by {
        assert forall|n: Seq<char>| more.contains(n) == (names.contains(n) || n == name) by {
            if names.contains(n) {
                let i = choose|i: int| 0 <= i < names.len() && names[i] == n;
                assert(more[i] == n);
            }
            assert(more[names.len() as int] == name);
        }
    }
}

proof fn lemma_with_files_names(
    layout: Layout,
    files: Seq<usize>,
    name: Seq<char>,
    parent: Ino,
    roots: Seq<Ino>,
)
    requires
        names_differ(layout.children, layout.seen),
        all_names_differ(layout.dirs),
    ensures
        ({
            let after = with_files(layout, files, name, parent, roots);
            names_differ(after.children, after.seen) && all_names_differ(after.dirs)
        }),
    decreases files.len(),
{
    if files.len() > 0 {
        lemma_with_files_names(layout, files.drop_last(), name, parent, roots);
        let before = with_files(layout, files.drop_last(), name, parent, roots);
        lemma_one_more_name(before.children, before.seen, name, roots[files.last() as int]);
    }
}

proof fn lemma_laid_out_names(
    layout: Layout,
    leaves: Seq<(usize, Seq<Seq<char>>)>,
    parent: Ino,
    roots: Seq<Ino>,
)
    requires
        names_differ(layout.children, layout.seen),
        all_names_differ(layout.dirs),
    ensures
        ({
            let after = laid_out(layout, leaves, parent, roots);
            names_differ(after.children, after.seen) && all_names_differ(after.dirs)
        }),
    decreases leaves_size(leaves),
{
    if leaves.len() > 0 {
        let name = leaves[0].1[0];
        lemma_deeper_smaller(leaves, name);
        lemma_other_smaller(leaves, name);
        let deeper = deeper_leaves(leaves, name);
        let with_dir = if deeper.len() > 0 {
            let ino = layout.next;
            let start = Layout {
                children: Seq::empty(),
                seen: Set::empty(),
                next: crate::inode::next_ino_after(ino),
                ..layout
            };
            lemma_no_names();
            lemma_laid_out_names(start, deeper, ino, roots);
            let below = laid_out(start, deeper, ino, roots);
            lemma_one_more_name(layout.children, layout.seen, name, ino);
            Layout {
                children: layout.children.push((unique(layout.seen, name), ino)),
                seen: seen_after(layout.seen, name),
                dirs: below.dirs.insert(
                    ino,
                    SuperView { parent, children: below.children, seen: below.seen },
                ),
                ..below
            }
        } else {
            layout
        };
        let files = files_named(leaves, name);
        lemma_with_files_names(with_dir, files, name, parent, roots);
        lemma_laid_out_names(
            with_files(with_dir, files, name, parent, roots),
            other_leaves(leaves, name),
            parent,
            roots,
        );
    }
}

/// In a fresh mount the entries of every directory above the files have different names.
pub proof fn law_fresh_mount_has_different_names(
    sources: Seq<SourceView>,
    readonly: bool,
    allow_other: bool,
    uid: u32,
    gid: u32,
)
    ensures
        all_names_differ(mount_of(sources, readonly, allow_other, uid, gid).dirs),
{
    let hidden = exists|i: int| 0 <= i < sources.len() && (#[trigger] sources[i]).shown is Some;
    let fs = with_all_unplaced(bare_mount(readonly || hidden, allow_other, uid, gid), sources);
    let start = Layout {
        children: Seq::empty(),
        seen: Set::empty(),
        dirs: Map::empty(),
        file_parents: Map::empty(),
        next: fs.next,
    };
    lemma_no_names();
    lemma_laid_out_names(start, leaves_of(sources), ROOT_INO, roots_of(fs.files));
}

pub(crate) proof fn lemma_made_dirs_names(dirs: Map<Ino, SuperView>, next: Ino, names: Seq<Seq<char>>)
    requires
        dirs.contains_key(ROOT_INO),
        all_names_differ(dirs),
    ensures
        all_names_differ(super_dir_at(dirs, next, names).0),
        super_dir_at(dirs, next, names).0.contains_key(super_dir_at(dirs, next, names).2),
    decreases names.len(),
{
    if names.len() > 0 {
        let (before, free, parent) = super_dir_at(dirs, next, names.drop_last());
        lemma_made_dirs_names(dirs, next, names.drop_last());
        lemma_no_names();
        let made = before.insert(free, crate::supers::empty_dir(parent));
        lemma_one_more_name(made[parent].children, made[parent].seen, names.last(), free);
    }
}

/// Adding a file leaves the entries of every directory above the files with different names.
pub proof fn law_added_file_has_a_name_of_its_own(fs: FsView, source: SourceView)
    requires
        fs.wf(),
        all_names_differ(fs.dirs),
    ensures
        all_names_differ(fs.with_file(source).dirs),
{
    if source.mount_path.len() > 0 && !fs.mounted.contains(source.path) {
        let opened_fs = with_unplaced(fs, source);
        let root = opened_fs.files.last().inodes.shadow.dir;
        let names = source.mount_path.drop_last();
        lemma_made_dirs_names(opened_fs.dirs, opened_fs.next, names);
        let (dirs, free, parent) = super_dir_at(opened_fs.dirs, opened_fs.next, names);
        lemma_one_more_name(
            dirs[parent].children,
            dirs[parent].seen,
            source.mount_path.last(),
            root,
        );
    }
}

/// A request leaves the entries of every directory above the files with different names.
pub proof fn law_requests_leave_names_different(fs: FsView, after: FsView, step: StepView)
    requires
        all_names_differ(fs.dirs),
        one_file_changed(fs, after, step),
    ensures
        all_names_differ(after.dirs),
{
}

proof fn lemma_child_ino(children: Seq<(Seq<char>, Ino)>, k: int)
    requires
        child_names(children).no_duplicates(),
        0 <= k < children.len(),
    ensures
        child_ino(children, children[k].0) == Some(children[k].1),
    decreases children.len(),
{
    let names = child_names(children);
    if k > 0 {
        assert(names[0] != names[k]);
        let rest = children.drop_first();
        assert(child_names(rest).no_duplicates()) by {
            assert forall|i: int, j: int|
                0 <= i < j < rest.len() implies child_names(rest)[i] != child_names(rest)[j] by {
                assert(names[i + 1] != names[j + 1]);
            }
        }
        lemma_child_ino(rest, k - 1);
    }
}

proof fn lemma_child_ino_listed(children: Seq<(Seq<char>, Ino)>, name: Seq<char>) -> (k: int)
    requires
        child_ino(children, name) is Some,
    ensures
        0 <= k < children.len(),
        children[k] == (name, child_ino(children, name)->0),
    decreases children.len(),
{
    if children[0].0 == name {
        0
    } else {
        lemma_child_ino_listed(children.drop_first(), name) + 1
    }
}

/// Whether an entry is listed under this name and number.
pub open spec fn has_entry(entries: Seq<DirEntryView>, name: Seq<char>, ino: Ino) -> bool {
    exists|k: int|
        0 <= k < entries.len() && (#[trigger] entries[k]).name == name && entries[k].ino == ino
}

/// A directory above the files lists just what can be looked up in it, under the same numbers.
pub proof fn law_listing_above_the_files_agrees_with_lookup(
    fs: FsView,
    dir: Ino,
    name: Seq<char>,
    ino: Ino,
    now: Timestamp,
)
    requires
        all_names_differ(fs.dirs),
        fs.dirs.contains_key(dir),
    ensures
        fs.entries(dir, now) is Ok,
        has_entry(fs.entries(dir, now)->Ok_0, name, ino) <==> fs.lookup(dir, name) == Ok::<
            Ino,
            VfsError,
        >(ino),
{
    let children = fs.dirs[dir].children;
    let entries = super_entries(children, now);
    if has_entry(entries, name, ino) {
        let k = choose|k: int|
            0 <= k < entries.len() && (#[trigger] entries[k]).name == name && entries[k].ino
                == ino;
        lemma_child_ino(children, k);
    }
    if fs.lookup(dir, name) == Ok::<Ino, VfsError>(ino) {
        let k = lemma_child_ino_listed(children, name);
        assert(entries[k].name == name && entries[k].ino == ino);
    }
}

proof fn lemma_front_matter_recorded(
    index: Index,
    node: ShadowView,
    n: nat,
    path: Seq<Seq<char>>,
    kind: FrontMatterKind,
)
    requires
        n <= node.children.len(),
    ensures
        indexed_below(index, node, n, path).inos.contains_key(PathView::FrontMatter(kind))
            == index.inos.contains_key(PathView::FrontMatter(kind)),
    decreases node, n,
{
    if n > 0 {
        lemma_front_matter_recorded(index, node, (n - 1) as nat, path, kind);
        let before = indexed_below(index, node, (n - 1) as nat, path);
        let child = node.children[n - 1];
        let child_path = path.push(child.name);
        lemma_front_matter_recorded(
            before.record_section(child_path, child),
            child,
            child.children.len(),
            child_path,
            kind,
        );
    }
}

/// The entries for subsections, one by one.
pub(crate) proof fn lemma_child_entry(
    f: FileView,
    path: Seq<Seq<char>>,
    section: SectionView,
    n: nat,
    now: Timestamp,
    k: int,
)
    requires
        in_step(f.inodes, f.tree),
        f.section(path) == Some(section),
        0 <= k < n <= section.children.len(),
    ensures
        ({
            let entries = f.child_entries(path, section.children, n, now);
            let name = section.children[k].name;
            let ino = f.inodes.index.inos.get(PathView::Dir(path.push(name)));
            &&& entries.len() == n
            &&& ino is Some
            &&& entries[k] == (DirEntryView { ino: ino->0, name, attr: dir_attr(ino->0, now) })
        }),
    decreases n,
{
    let name = section.children[n - 1].name;
    lemma_child_index(section.children, name);
    lemma_found_child(f.tree.root, path, name);
    law_every_directory_has_numbers(f.inodes, f.tree, path.push(name));
    if n > 1 {
        lemma_child_entry(
            f,
            path,
            section,
            (n - 1) as nat,
            now,
            if k < n - 1 {
                k
            } else {
                0
            },
        );
    } else {
        assert(f.child_entries(path, section.children, 0, now).len() == 0);
    }
}

/// A directory of a file lists just what can be looked up in it, under the same numbers: its
/// `content.md`, the front matter in the top directory, and the subdirectories. Only a subdirectory
/// with the name of one of the files is listed and yet hidden by the file.
pub proof fn law_listing_agrees_with_lookup(
    fs: FsView,
    dir: Ino,
    file: usize,
    path: Seq<Seq<char>>,
    name: Seq<char>,
    ino: Ino,
    now: Timestamp,
)
    requires
        fs.wf(),
        !fs.dirs.contains_key(dir),
        fs.dir_path(dir) == Some((file, path)),
        fs.files[file as int].section(path) is Some,
    ensures
        fs.entries(dir, now) is Ok,
        fs.lookup(dir, name) == Ok::<Ino, VfsError>(ino) ==> has_entry(
            fs.entries(dir, now)->Ok_0,
            name,
            ino,
        ),
        has_entry(fs.entries(dir, now)->Ok_0, name, ino) && (canonical_child(path, name) is None
            || fs.files[file as int].child_section(path, name) is None) ==> fs.lookup(dir, name)
            == Ok::<Ino, VfsError>(ino),
{
    reveal_strlit("content.md");
    reveal_strlit("_frontmatter.yaml");
    reveal_strlit("_frontmatter.toml");
    assert("_frontmatter.yaml"@[13] == 'y' && "_frontmatter.toml"@[13] == 't');
    assert("_frontmatter.yaml"@[0] == '_' && "_frontmatter.toml"@[0] == '_');
    assert("content.md"@[0] == 'c');
    let f = fs.files[file as int];
    assert(fs.owner[dir] < fs.files.len());
    assert(in_step(f.inodes, f.tree));
    let section = f.section(path)->0;
    law_every_directory_has_numbers(f.inodes, f.tree, path);
    let first = f.content_entry(dir, path, now);
    let front = f.frontmatter_entries(path, now);
    let n = section.children.len();
    let children = f.child_entries(path, section.children, n, now);
    let all = f.entries(dir, path, section, now);
    assert(all[0] == first);
    assert(children.len() == n) by {
        if n > 0 {
            lemma_child_entry(f, path, section, n, now, 0);
        }
    }
    assert(path.len() == 0 ==> path =~= Seq::empty());
    if has_entry(all, name, ino) {
        let k = choose|k: int|
            0 <= k < all.len() && (#[trigger] all[k]).name == name && all[k].ino == ino;
        if k == 0 {
        } else if k < 1 + front.len() {
            assert(all[k] == front[k - 1]);
        } else {
            let j = k - 1 - front.len();
            assert(all[k] == children[j]);
            lemma_child_entry(f, path, section, n, now, j);
            lemma_child_index(section.children, name);
            assert(section.children[j].name == name);
        }
    }
    if fs.lookup(dir, name) == Ok::<Ino, VfsError>(ino) {
        match canonical_child(path, name) {
            Some(PathView::FrontMatter(kind)) => {
                let own = Index::none().record_section(Seq::empty(), f.inodes.shadow);
                lemma_front_matter_recorded(
                    own,
                    f.inodes.shadow,
                    f.inodes.shadow.children.len(),
                    Seq::empty(),
                    kind,
                );
                assert(f.inodes.front_matter is Some && (f.inodes.front_matter->0).0 == kind);
                assert(front.len() == 1);
                assert(all[1] == front[0]);
            },
            Some(_) => {},
            None => {
                lemma_child_index(section.children, name);
                let j = child_index(section.children, name)->0;
                lemma_child_entry(f, path, section, n, now, j);
                assert(all[1 + front.len() + j] == children[j]);
            },
        }
    }
}

} // verus!
