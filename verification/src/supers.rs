//! The directories above the mounted files.
//!
//! Each mounted file is a directory at the path it was mounted under. The directories on the way
//! there belong to no file.
use rustc_hash::FxHashMap;
use vstd::prelude::*;

use crate::inode::{copy_names, next_ino_after, take_ino};
use crate::model::views;
use crate::names::{seen_after, unique, unique_name, SeenNames};
use crate::tables::{table_get, table_insert, table_remove};
use crate::text::same_text;
use crate::vfs::Ino;

verus! {

/// A directory above the mounted files.
pub struct SuperDir {
    pub parent: Ino,
    pub children: Vec<(String, Ino)>,
    /// The names handed out so far, so that one more stays apart from them.
    pub seen_names: SeenNames,
}

/// The mathematical value of a [`SuperDir`].
pub struct SuperView {
    pub parent: Ino,
    pub children: Seq<(Seq<char>, Ino)>,
    pub seen: Set<Seq<char>>,
}

/// The entries of a directory as plain values.
pub open spec fn child_views(children: Seq<(String, Ino)>) -> Seq<(Seq<char>, Ino)> {
    Seq::new(children.len(), |i: int| (children[i].0@, children[i].1))
}

impl View for SuperDir {
    type V = SuperView;

    open spec fn view(&self) -> SuperView {
        SuperView {
            parent: self.parent,
            children: child_views(self.children@),
            seen: self.seen_names@,
        }
    }
}

/// The number of the first of `children` that is called `name`.
pub open spec fn child_ino(children: Seq<(Seq<char>, Ino)>, name: Seq<char>) -> Option<Ino>
    decreases children.len(),
{
    if children.len() == 0 {
        None
    } else if children[0].0 == name {
        Some(children[0].1)
    } else {
        child_ino(children.drop_first(), name)
    }
}

/// `dir` with one more entry, named after `raw_name`.
pub open spec fn with_child(dir: SuperView, raw_name: Seq<char>, ino: Ino) -> SuperView {
    SuperView {
        parent: dir.parent,
        children: dir.children.push((unique(dir.seen, raw_name), ino)),
        seen: seen_after(dir.seen, raw_name),
    }
}

impl SuperDir {
    /// A directory without entries.
    pub fn new(parent: Ino) -> (dir: SuperDir)
        ensures
            dir@ == empty_dir(parent),
    {
        let dir = SuperDir { parent, children: Vec::new(), seen_names: SeenNames::new() };
        assert(dir@.children =~= Seq::empty());
        dir
    }

    /// The number of the first entry that is called `name`.
    pub fn child(&self, name: &str) -> (ino: Option<Ino>)
        ensures
            ino == child_ino(self@.children, name@),
    {
        let ghost all = self@.children;
        let mut i: usize = 0;
        assert(all.skip(0) =~= all);
        while i < self.children.len()
            invariant
                i <= self.children@.len(),
                all == child_views(self.children@),
                child_ino(all, name@) == child_ino(all.skip(i as int), name@),
            decreases self.children@.len() - i,
        {
            assert(all.skip(i as int)[0] == all[i as int]);
            assert(all.skip(i as int).drop_first() =~= all.skip(i + 1));
            if same_text(&self.children[i].0, name) {
                return Some(self.children[i].1);
            }
            i += 1;
        }
        None
    }

    /// Adds an entry, named after `raw_name`.
    pub fn push(&mut self, raw_name: &str, ino: Ino)
        ensures
            final(self)@ == with_child(old(self)@, raw_name@, ino),
    {
        let ghost before = self@;
        let name = unique_name(&mut self.seen_names, raw_name);
        self.children.push((name, ino));
        assert(self@.children =~= before.children.push((name@, ino)));
    }
}

/// A directory without entries.
pub open spec fn empty_dir(parent: Ino) -> SuperView {
    SuperView { parent, children: Seq::empty(), seen: Set::empty() }
}

/// The directories above the mounted files, by number.
pub struct SuperDirs {
    dirs: FxHashMap<Ino, SuperDir>,
}

impl View for SuperDirs {
    type V = Map<Ino, SuperView>;

    closed spec fn view(&self) -> Map<Ino, SuperView> {
        self.dirs@.map_values(|dir: SuperDir| dir@)
    }
}

impl SuperDirs {
    /// No directories.
    pub fn new() -> (dirs: SuperDirs)
        ensures
            dirs@ == Map::<Ino, SuperView>::empty(),
    {
        let dirs = SuperDirs { dirs: FxHashMap::default() };
        assert(dirs@ =~= Map::<Ino, SuperView>::empty());
        dirs
    }

    /// The directory with the number `ino`.
    pub fn get(&self, ino: Ino) -> (dir: Option<&SuperDir>)
        ensures
            match dir {
                Some(d) => self@.contains_key(ino) && d@ == self@[ino],
                None => !self@.contains_key(ino),
            },
    {
        table_get(&self.dirs, ino)
    }

    /// Whether there is a directory with the number `ino`.
    pub fn contains(&self, ino: Ino) -> (r: bool)
        ensures
            r == self@.contains_key(ino),
    {
        self.get(ino).is_some()
    }

    /// Puts a directory under the number `ino`.
    pub fn insert(&mut self, ino: Ino, dir: SuperDir)
        ensures
            final(self)@ == old(self)@.insert(ino, dir@),
    {
        let ghost before = self@;
        table_insert(&mut self.dirs, ino, dir);
        assert(self@ =~= before.insert(ino, dir@));
    }

    /// Adds an entry to the directory with the number `parent`, named after `raw_name`.
    pub fn add_child(&mut self, parent: Ino, raw_name: &str, ino: Ino)
        requires
            old(self)@.contains_key(parent),
        ensures
            final(self)@ == old(self)@.insert(parent, with_child(old(self)@[parent], raw_name@, ino)),
    {
        let ghost before = self@;
        if let Some(mut dir) = table_remove(&mut self.dirs, parent) {
            dir.push(raw_name, ino);
            self.insert(parent, dir);
        }
        assert(self@ =~= before.insert(parent, with_child(before[parent], raw_name@, ino)));
    }
}

/// A mounted file and the path it is mounted under.
pub type Leaf = (usize, Vec<String>);

/// The mathematical value of a [`Leaf`].
pub open spec fn leaf_views(leaves: Seq<Leaf>) -> Seq<(usize, Seq<Seq<char>>)> {
    Seq::new(leaves.len(), |i: int| (leaves[i].0, views(leaves[i].1@)))
}

/// What is known while the directories above the mounted files are laid out: the entries of the
/// directory at hand, all directories so far, the directory of each file, and the next free number.
pub struct Layout {
    pub children: Seq<(Seq<char>, Ino)>,
    pub seen: Set<Seq<char>>,
    pub dirs: Map<Ino, SuperView>,
    pub file_parents: Map<u64, Ino>,
    pub next: Ino,
}

impl Layout {
    /// The layout with one more entry in the directory at hand.
    pub open spec fn with_entry(self, raw_name: Seq<char>, ino: Ino) -> Layout {
        Layout {
            children: self.children.push((unique(self.seen, raw_name), ino)),
            seen: seen_after(self.seen, raw_name),
            ..self
        }
    }
}

/// The leaves whose path starts with `name` and goes on: what is left of their paths.
pub open spec fn deeper_leaves(leaves: Seq<(usize, Seq<Seq<char>>)>, name: Seq<char>) -> Seq<
    (usize, Seq<Seq<char>>),
>
    decreases leaves.len(),
{
    if leaves.len() == 0 {
        Seq::empty()
    } else {
        let before = deeper_leaves(leaves.drop_last(), name);
        let (file, path) = leaves.last();
        if path[0] == name && path.len() > 1 {
            before.push((file, path.drop_first()))
        } else {
            before
        }
    }
}

/// The files whose path is just `name`.
pub open spec fn files_named(leaves: Seq<(usize, Seq<Seq<char>>)>, name: Seq<char>) -> Seq<usize>
    decreases leaves.len(),
{
    if leaves.len() == 0 {
        Seq::empty()
    } else {
        let before = files_named(leaves.drop_last(), name);
        let (file, path) = leaves.last();
        if path[0] == name && path.len() <= 1 {
            before.push(file)
        } else {
            before
        }
    }
}

/// The leaves whose path does not start with `name`.
pub open spec fn other_leaves(leaves: Seq<(usize, Seq<Seq<char>>)>, name: Seq<char>) -> Seq<
    (usize, Seq<Seq<char>>),
>
    decreases leaves.len(),
{
    if leaves.len() == 0 {
        Seq::empty()
    } else {
        let before = other_leaves(leaves.drop_last(), name);
        if leaves.last().1[0] == name {
            before
        } else {
            before.push(leaves.last())
        }
    }
}

/// How much there is to lay out.
pub open spec fn leaves_size(leaves: Seq<(usize, Seq<Seq<char>>)>) -> nat
    decreases leaves.len(),
{
    if leaves.len() == 0 {
        0
    } else {
        leaves_size(leaves.drop_last()) + leaves.last().1.len() + 1
    }
}

/// What goes deeper is less to lay out.
pub proof fn lemma_deeper_smaller(leaves: Seq<(usize, Seq<Seq<char>>)>, name: Seq<char>)
    ensures
        leaves_size(deeper_leaves(leaves, name)) + deeper_leaves(leaves, name).len() <= leaves_size(
            leaves,
        ),
    decreases leaves.len(),
{
    if leaves.len() > 0 {
        lemma_deeper_smaller(leaves.drop_last(), name);
        let before = deeper_leaves(leaves.drop_last(), name);
        let (file, path) = leaves.last();
        let leaf = (file, path.drop_first());
        assert(before.push(leaf).drop_last() =~= before);
    }
}

/// What starts otherwise is less to lay out.
pub proof fn lemma_other_smaller(leaves: Seq<(usize, Seq<Seq<char>>)>, name: Seq<char>)
    ensures
        leaves_size(other_leaves(leaves, name)) <= leaves_size(leaves),
        leaves.len() > 0 && leaves[0].1[0] == name ==> leaves_size(other_leaves(leaves, name))
            < leaves_size(leaves),
    decreases leaves.len(),
{
    if leaves.len() > 0 {
        lemma_other_smaller(leaves.drop_last(), name);
        let before = other_leaves(leaves.drop_last(), name);
        assert(before.push(leaves.last()).drop_last() =~= before);
        if leaves.len() > 1 {
            assert(leaves.drop_last()[0] == leaves[0]);
        }
    }
}

/// The layout with the files `files`, each an entry named after `name` of the directory `parent`.
/// `roots` holds the number of each file's own directory.
pub open spec fn with_files(
    layout: Layout,
    files: Seq<usize>,
    name: Seq<char>,
    parent: Ino,
    roots: Seq<Ino>,
) -> Layout
    decreases files.len(),
{
    if files.len() == 0 {
        layout
    } else {
        let before = with_files(layout, files.drop_last(), name, parent, roots);
        let file = files.last();
        Layout {
            file_parents: before.file_parents.insert(file as u64, parent),
            ..before.with_entry(name, roots[file as int])
        }
    }
}

/// The layout with all `leaves` below the directory `parent`. Leaves whose paths start alike share a
/// directory, unless the path ends there: then the file itself is an entry. Entries come in the
/// order in which their names first occur.
pub open spec fn laid_out(
    layout: Layout,
    leaves: Seq<(usize, Seq<Seq<char>>)>,
    parent: Ino,
    roots: Seq<Ino>,
) -> Layout
    decreases leaves_size(leaves),
{
    if leaves.len() == 0 {
        layout
    } else {
        proof {
            lemma_deeper_smaller(leaves, leaves[0].1[0]);
            lemma_other_smaller(leaves, leaves[0].1[0]);
        }
        let name = leaves[0].1[0];
        let deeper = deeper_leaves(leaves, name);
        let with_dir = if deeper.len() > 0 {
            let ino = layout.next;
            let below = laid_out(
                Layout {
                    children: Seq::empty(),
                    seen: Set::empty(),
                    next: next_ino_after(ino),
                    ..layout
                },
                deeper,
                ino,
                roots,
            );
            let dir = SuperView { parent, children: below.children, seen: below.seen };
            Layout {
                children: layout.children.push((unique(layout.seen, name), ino)),
                seen: seen_after(layout.seen, name),
                dirs: below.dirs.insert(ino, dir),
                ..below
            }
        } else {
            layout
        };
        laid_out(
            with_files(with_dir, files_named(leaves, name), name, parent, roots),
            other_leaves(leaves, name),
            parent,
            roots,
        )
    }
}

/// Adding files adds no directories and hands out no numbers.
pub proof fn lemma_with_files_dirs(
    layout: Layout,
    files: Seq<usize>,
    name: Seq<char>,
    parent: Ino,
    roots: Seq<Ino>,
)
    ensures
        with_files(layout, files, name, parent, roots).dirs == layout.dirs,
        with_files(layout, files, name, parent, roots).next == layout.next,
    decreases files.len(),
{
    if files.len() > 0 {
        lemma_with_files_dirs(layout, files.drop_last(), name, parent, roots);
    }
}

/// Directories are laid out under numbers that are handed out upwards, each for the first time.
pub proof fn lemma_laid_out_fresh(
    layout: Layout,
    leaves: Seq<(usize, Seq<Seq<char>>)>,
    parent: Ino,
    roots: Seq<Ino>,
    x: Ino,
)
    ensures
        layout.next <= laid_out(layout, leaves, parent, roots).next,
        laid_out(layout, leaves, parent, roots).next < u64::MAX && laid_out(
            layout,
            leaves,
            parent,
            roots,
        ).dirs.contains_key(x) ==> layout.dirs.contains_key(x) || layout.next <= x < laid_out(
            layout,
            leaves,
            parent,
            roots,
        ).next,
    decreases leaves_size(leaves),
{
    if leaves.len() > 0 {
        let name = leaves[0].1[0];
        lemma_deeper_smaller(leaves, name);
        lemma_other_smaller(leaves, name);
        let deeper = deeper_leaves(leaves, name);
        let with_dir = if deeper.len() > 0 {
            let ino = layout.next;
            let start = Layout {
                children: Seq::empty(),
                seen: Set::empty(),
                next: next_ino_after(ino),
                ..layout
            };
            lemma_laid_out_fresh(start, deeper, ino, roots, x);
            let below = laid_out(start, deeper, ino, roots);
            let dir = SuperView { parent, children: below.children, seen: below.seen };
            Layout {
                children: layout.children.push((unique(layout.seen, name), ino)),
                seen: seen_after(layout.seen, name),
                dirs: below.dirs.insert(ino, dir),
                ..below
            }
        } else {
            layout
        };
        let files = files_named(leaves, name);
        lemma_with_files_dirs(with_dir, files, name, parent, roots);
        lemma_laid_out_fresh(
            with_files(with_dir, files, name, parent, roots),
            other_leaves(leaves, name),
            parent,
            roots,
            x,
        );
    }
}

/// Where the directories above the mounted files are kept.
pub struct Placement {
    pub dirs: SuperDirs,
    pub file_parents: FxHashMap<u64, Ino>,
    pub next_ino: Ino,
}

/// The layout of which `placement` holds the directories, and `dir` the entries at hand.
pub open spec fn layout_of(placement: Placement, dir: SuperDir) -> Layout {
    Layout {
        children: dir@.children,
        seen: dir@.seen,
        dirs: placement.dirs@,
        file_parents: placement.file_parents@,
        next: placement.next_ino,
    }
}

/// The layout of an empty directory besides what `placement` holds.
pub open spec fn fresh_layout(placement: Placement) -> Layout {
    Layout {
        children: Seq::empty(),
        seen: Set::empty(),
        dirs: placement.dirs@,
        file_parents: placement.file_parents@,
        next: placement.next_ino,
    }
}

/// Whether every leaf has a path and is one of `n` files.
pub open spec fn leaves_valid(leaves: Seq<(usize, Seq<Seq<char>>)>, n: nat) -> bool {
    forall|i: int|
        0 <= i < leaves.len() ==> (#[trigger] leaves[i]).0 < n && leaves[i].1.len() > 0
}

/// Lays out all `leaves` below the directory with the number `ino`, which is returned; its parent is
/// `parent`. `roots` holds the number of each file's own directory.
pub fn build_super_level(
    placement: &mut Placement,
    parent: Ino,
    ino: Ino,
    leaves: Vec<Leaf>,
    roots: &Vec<Ino>,
) -> (dir: SuperDir)
    requires
        leaves_valid(leaf_views(leaves@), roots@.len()),
    ensures
        dir@.parent == parent,
        layout_of(*final(placement), dir) == laid_out(
            fresh_layout(*old(placement)),
            leaf_views(leaves@),
            ino,
            roots@,
        ),
    decreases leaves_size(leaf_views(leaves@)),
{
    let ghost target = laid_out(
        fresh_layout(*placement),
        leaf_views(leaves@),
        ino,
        roots@,
    );
    let ghost size = leaves_size(leaf_views(leaves@));
    let mut dir = SuperDir::new(parent);
    assert(layout_of(*placement, dir) == fresh_layout(*placement));
    let mut left = leaves;
    while left.len() > 0
        invariant
            leaves_valid(leaf_views(left@), roots@.len()),
            leaves_size(leaf_views(left@)) <= size,
            size == leaves_size(leaf_views(leaves@)),
            dir@.parent == parent,
            laid_out(layout_of(*placement, dir), leaf_views(left@), ino, roots@) == target,
        decreases leaves_size(leaf_views(left@)),
    {
        let ghost lv = leaf_views(left@);
        assert(lv[0].1 == views(left@[0].1@));
        let name = left[0].1[0].clone();
        assert(name@ == lv[0].1[0]);
        let (deeper, files, others) = split_leaves(&left, &name, Ghost(roots@.len()));
        proof {
            lemma_deeper_smaller(lv, name@);
            lemma_other_smaller(lv, name@);
        }
        let ghost before = layout_of(*placement, dir);
        let ghost deeper_views = leaf_views(deeper@);
        if deeper.len() > 0 {
            let below_ino = take_ino(&mut placement.next_ino);
            let ghost start = fresh_layout(*placement);
            let below = build_super_level(placement, ino, below_ino, deeper, roots);
            placement.dirs.insert(below_ino, below);
            dir.push(&name, below_ino);
            proof {
                assert(start == (Layout {
                    children: Seq::empty(),
                    seen: Set::empty(),
                    next: next_ino_after(before.next),
                    ..before
                }));
            }
        }
        let ghost with_dir = layout_of(*placement, dir);
        let mut i: usize = 0;
        assert(files@.take(0) =~= Seq::empty());
        while i < files.len()
            invariant
                i <= files@.len(),
                forall|j: int| 0 <= j < files@.len() ==> #[trigger] files@[j] < roots@.len(),
                dir@.parent == parent,
                layout_of(*placement, dir) == with_files(
                    with_dir,
                    files@.take(i as int),
                    name@,
                    ino,
                    roots@,
                ),
            decreases files@.len() - i,
        {
            let file = files[i];
            assert(files@.take(i + 1).drop_last() =~= files@.take(i as int));
            assert(files@.take(i + 1).last() == file);
            table_insert(&mut placement.file_parents, file as u64, ino);
            dir.push(&name, roots[file]);
            i += 1;
        }
        assert(files@.take(i as int) =~= files@);
        left = others;
    }
    dir
}

/// Sorts `leaves` by whether their paths start with `name` and go on, are just `name`, or start
/// otherwise.
fn split_leaves(leaves: &Vec<Leaf>, name: &str, n: Ghost<nat>) -> (r: (
    Vec<Leaf>,
    Vec<usize>,
    Vec<Leaf>,
))
    requires
        leaves_valid(leaf_views(leaves@), n@),
    ensures
        leaf_views(r.0@) == deeper_leaves(leaf_views(leaves@), name@),
        leaves_valid(leaf_views(r.0@), n@),
        r.1@ == files_named(leaf_views(leaves@), name@),
        forall|j: int| 0 <= j < r.1@.len() ==> #[trigger] r.1@[j] < n@,
        leaf_views(r.2@) == other_leaves(leaf_views(leaves@), name@),
        leaves_valid(leaf_views(r.2@), n@),
{
    let ghost lv = leaf_views(leaves@);
    let mut deeper: Vec<Leaf> = Vec::new();
    let mut files: Vec<usize> = Vec::new();
    let mut others: Vec<Leaf> = Vec::new();
    let mut i: usize = 0;
    assert(leaf_views(deeper@) =~= Seq::empty());
    assert(leaf_views(others@) =~= Seq::empty());
    while i < leaves.len()
        invariant
            i <= leaves@.len(),
            lv == leaf_views(leaves@),
            leaves_valid(lv, n@),
            leaf_views(deeper@) == deeper_leaves(lv.take(i as int), name@),
            leaves_valid(leaf_views(deeper@), n@),
            files@ == files_named(lv.take(i as int), name@),
            forall|j: int| 0 <= j < files@.len() ==> #[trigger] files@[j] < n@,
            leaf_views(others@) == other_leaves(lv.take(i as int), name@),
            leaves_valid(leaf_views(others@), n@),
        decreases leaves@.len() - i,
    {
        assert(lv.take(i + 1).drop_last() =~= lv.take(i as int));
        assert(lv.take(i + 1).last() == lv[i as int]);
        let file = leaves[i].0;
        let path = &leaves[i].1;
        assert(lv[i as int] == (file, views(path@)));
        let ghost deeper_before = leaf_views(deeper@);
        let ghost others_before = leaf_views(others@);
        if same_text(&path[0], name) {
            if path.len() > 1 {
                let mut rest = copy_names(path);
                let ghost copied = rest@;
                let _first = rest.remove(0);
                proof {
                    assert(rest@ =~= copied.drop_first());
                    assert(views(rest@) =~= views(path@).drop_first());
                    assert(leaf_views(deeper@.push((file, rest))) =~= deeper_before.push(
                        (file, views(rest@)),
                    ));
                }
                deeper.push((file, rest));
            } else {
                files.push(file);
            }
        } else {
            let all = copy_names(path);
            assert(leaf_views(others@.push((file, all))) =~= others_before.push(
                (file, views(all@)),
            ));
            others.push((file, all));
        }
        i += 1;
    }
    assert(lv.take(i as int) =~= lv);
    (deeper, files, others)
}

} // verus!
