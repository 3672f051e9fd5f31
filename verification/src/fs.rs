//! A mount: requests of a file system, answered from Markdown documents.
//!
//! Each mounted file is a directory, named after the file, below the mount's root; a mounted
//! directory adds directories that mirror its own layout. Writes to `content.md` and to front matter
//! go straight into the document. A file under a name that the mount has no use for, such as the
//! temporary file of an editor, is kept in a buffer until it is renamed to one of those.
//!
//! A request that changes a document is answered in steps: [`Step::Save`] says which file has to be
//! brought to disk before the request goes on. [`MqFs::plan_save`] decides how, and
//! [`MqFs::record_saved`] takes note of it; [`MqFs::resume`] does the rest.
use rustc_hash::{FxHashMap, FxHashSet};
use vstd::prelude::*;
use vstd::slice::slice_to_vec;

use crate::block::{rendered, BlockView};
use crate::bytes::{read_window, splice, to_text_lossy};
use crate::document::{MutationError, CONTENT_FILE};
use crate::inode::{
    append_name, copy_names, empty_table, same_names, take_ino, InodeTable, MountPath, ROOT_INO,
};
use crate::model::{group_views, views};
use crate::mount::{
    attr_of_dir, attr_of_file, in_bounds, lemma_section_in_bounds, shown_tree, FileMount, FileView,
    Source,
};
use crate::numbering::{in_step, law_synced_table_is_in_step};
use crate::outline::occurs;
use crate::section::{
    child_index, find_below, lemma_section_children, tree_of, FrontMatterKind, Section,
    SectionView,
};
use crate::state::{
    bare_mount, canonical_child, entry_index, frontmatter_named, page, page_start, leaves_of,
    mount_of, refusal_error, reowned, roots_of, super_dir_at, super_dir_below, super_entries, Edit,
    FsView, NextView, Reply, StepView, with_all_unplaced, with_unplaced,
};
use crate::supers::{
    build_super_level, fresh_layout, leaf_views, lemma_laid_out_fresh, Leaf, Placement, SuperDir,
    SuperDirs, SuperView,
};
use crate::tables::{
    byte_strings, byte_strings_contains, byte_strings_insert, byte_strings_new, name_table,
    name_table_get, name_table_insert, name_table_new, name_table_remove, table_get, table_insert,
    table_remove, NameKey,
};
use crate::text::same_text;
use crate::vfs::{DirEntryOwned, FileAttr, Ino, Timestamp, VfsError};

verus! {

/// What is left of a request once the file is on disk.
#[derive(Debug)]
pub enum Next {
    Attr { ino: Ino, entry: MountPath },
    Stat { ino: Ino },
    NewDir { path: Vec<String> },
    Finish,
    ClearSource { path: Vec<String>, from: Ino, name: String },
    Forget { from: Ino, name: String },
}

impl View for Next {
    type V = NextView;

    open spec fn view(&self) -> NextView {
        match *self {
            Next::Attr { ino, entry } => NextView::Attr { ino, entry: entry@ },
            Next::Stat { ino } => NextView::Stat { ino },
            Next::NewDir { path } => NextView::NewDir { path: views(path@) },
            Next::Finish => NextView::Finish,
            Next::ClearSource { path, from, name } => NextView::ClearSource {
                path: views(path@),
                from,
                name: name@,
            },
            Next::Forget { from, name } => NextView::Forget { from, name: name@ },
        }
    }
}

/// Where a request stands.
#[derive(Debug)]
pub enum Step {
    /// It is answered.
    Finished(Result<Reply, VfsError>),
    /// `file` has to be brought to disk; then the request goes on with `next`.
    Save { file: usize, next: Next },
}

impl View for Step {
    type V = StepView;

    open spec fn view(&self) -> StepView {
        match *self {
            Step::Finished(result) => StepView::Finished(result),
            Step::Save { file, next } => StepView::Save { file, next: next@ },
        }
    }
}

/// What to do with a file that has to be brought to disk.
#[derive(Debug)]
pub enum SavePlan {
    /// Nothing: the text on disk is as it should be.
    UpToDate,
    /// Nothing: the file was changed on disk since it was last read.
    Conflict,
    /// Write this text.
    Write(String),
}

/// The mathematical value of a [`SavePlan`].
pub enum SavePlanView {
    UpToDate,
    Conflict,
    Write(Seq<char>),
}

impl View for SavePlan {
    type V = SavePlanView;

    open spec fn view(&self) -> SavePlanView {
        match *self {
            SavePlan::UpToDate => SavePlanView::UpToDate,
            SavePlan::Conflict => SavePlanView::Conflict,
            SavePlan::Write(text) => SavePlanView::Write(text@),
        }
    }
}

/// What to do with a file whose text should be `text`, where `current` is the time at which the file
/// on disk was last changed.
pub open spec fn save_plan(f: FileView, current: Option<Timestamp>) -> SavePlanView {
    let text = rendered(f.document);
    if text == f.persisted {
        SavePlanView::UpToDate
    } else if f.known_mtime is Some && current is Some && current->0.after(f.known_mtime->0) {
        SavePlanView::Conflict
    } else {
        SavePlanView::Write(text)
    }
}

/// A mount.
pub struct MqFs {
    files: Vec<FileMount>,
    placement: Placement,
    ino_owner: FxHashMap<Ino, usize>,
    scratch: FxHashMap<Ino, Vec<u8>>,
    scratch_by_name: FxHashMap<NameKey, Ino>,
    mounted_paths: FxHashSet<Vec<u8>>,
    readonly: bool,
    allow_other: bool,
    uid: u32,
    gid: u32,
}

impl View for MqFs {
    type V = FsView;

    closed spec fn view(&self) -> FsView {
        FsView {
            files: views(self.files@),
            dirs: self.placement.dirs@,
            file_parents: self.placement.file_parents@,
            owner: self.ino_owner@,
            next: self.placement.next_ino,
            scratch: self.scratch@.map_values(|buf: Vec<u8>| buf@),
            names: name_table(self.scratch_by_name),
            mounted: byte_strings(self.mounted_paths),
            readonly: self.readonly,
            allow_other: self.allow_other,
            uid: self.uid,
            gid: self.gid,
        }
    }
}

/// How a refused edit is reported.
pub fn map_mutation_error(e: MutationError) -> (r: VfsError)
    ensures
        r == refusal_error(e@),
{
    match e {
        MutationError::AlreadyExists(_) => VfsError::Exists,
        MutationError::NotEmpty => VfsError::NotEmpty,
        MutationError::NotADirectory => VfsError::NotDir,
        MutationError::Parse(_) => VfsError::Invalid,
        MutationError::WouldCreateCycle => VfsError::Invalid,
        MutationError::TooDeep => VfsError::Invalid,
    }
}

/// The front matter that is shown under `name`.
pub fn frontmatter_kind_for_name(name: &str) -> (kind: Option<FrontMatterKind>)
    ensures
        kind == frontmatter_named(name@),
{
    if same_text(name, FrontMatterKind::Yaml.file_name()) {
        Some(FrontMatterKind::Yaml)
    } else if same_text(name, FrontMatterKind::Toml.file_name()) {
        Some(FrontMatterKind::Toml)
    } else {
        None
    }
}

/// The file that stands for part of the document under `name` in the directory at `parent_path`.
fn find_canonical_child(parent_path: &[String], name: &str) -> (child: Option<MountPath>)
    ensures
        match canonical_child(views(parent_path@), name@) {
            Some(p) => child is Some && child->0@ == p,
            None => child is None,
        },
{
    if same_text(name, CONTENT_FILE) {
        Some(MountPath::Content(copy_names(parent_path)))
    } else if parent_path.len() == 0 {
        match frontmatter_kind_for_name(name) {
            Some(kind) => Some(MountPath::FrontMatter(kind)),
            None => None,
        }
    } else {
        None
    }
}

/// What an edit leaves of a mounted file: only its document may have changed, and the result tells
/// whether it has.
pub open spec fn file_edited(
    before: FileView,
    after: FileView,
    r: Result<bool, VfsError>,
    edit: Edit,
) -> bool {
    match edit {
        Ok(Some(document)) => r == Ok::<bool, VfsError>(true) && after == (FileView {
            document,
            ..before
        }),
        Ok(None) => r == Ok::<bool, VfsError>(false) && after == before,
        Err(e) => r == Err::<bool, VfsError>(e) && after == before,
    }
}

/// The result of an edit of a document, as a request reports it.
fn report(r: Result<(), MutationError>) -> (result: Result<bool, VfsError>)
    ensures
        match r {
            Ok(_) => result == Ok::<bool, VfsError>(true),
            Err(e) => result == Err::<bool, VfsError>(refusal_error(e@)),
        },
{
    match r {
        Ok(_) => Ok(true),
        Err(e) => Err(map_mutation_error(e)),
    }
}

/// A section directly below one that was found lies in the document too.
proof fn lemma_child_in_bounds(f: FileView, path: Seq<Seq<char>>, name: Seq<char>)
    requires
        f.current(),
    ensures
        match f.child_section(path, name) {
            Some(s) => in_bounds(f.document, s) && (f.shown is None ==> occurs(
                tree_of(f.document).root,
                s,
            )),
            None => true,
        },
{
    lemma_found_child(f.tree.root, path, name);
    if f.child_section(path, name) is Some {
        lemma_section_in_bounds(f, path.push(name));
    }
}

/// A path leads through the section before its last name.
pub proof fn lemma_found_child(section: SectionView, path: Seq<Seq<char>>, name: Seq<char>)
    ensures
        find_below(section, path.push(name)) == (match find_below(section, path) {
            Some(parent) => match child_index(parent.children, name) {
                Some(i) => Some(parent.children[i]),
                None => None,
            },
            None => None,
        }),
    decreases path.len(),
{
    if path.len() == 0 {
        assert(path.push(name).drop_first() =~= path);
        assert(path.push(name)[0] == name);
        if let Some(i) = child_index(section.children, name) {
            assert(find_below(section.children[i], path) == Some(section.children[i]));
        }
    } else {
        assert(path.push(name).drop_first() =~= path.drop_first().push(name));
        assert(path.push(name)[0] == path[0]);
        if let Some(i) = child_index(section.children, path[0]) {
            lemma_found_child(section.children[i], path.drop_first(), name);
        }
    }
}

impl FileMount {
    /// Puts `text` in place of the own content of the section at `path`.
    fn edit_content(&mut self, path: &[String], text: &str) -> (r: Result<bool, VfsError>)
        requires
            old(self)@.current(),
        ensures
            file_edited(
                old(self)@,
                final(self)@,
                r,
                old(self)@.content_edit(views(path@), text@),
            ),
    {
        let range = match self.section(path) {
            Some(section) => section.own_content_range.start..section.own_content_range.end,
            None => {
                return Ok(false);
            },
        };
        proof {
            lemma_section_in_bounds(self@, views(path@));
        }
        report(self.document.replace_section_content(range, text))
    }

    /// Puts `text` in place of the front matter of this kind.
    fn edit_frontmatter(&mut self, kind: FrontMatterKind, text: &str) -> (r: Result<bool, VfsError>)
        requires
            old(self)@.current(),
        ensures
            file_edited(old(self)@, final(self)@, r, old(self)@.frontmatter_edit(kind, text@)),
    {
        if let Some((found, index)) = self.tree.front_matter {
            if found == kind {
                self.document.set_frontmatter(index, text.to_string());
                return Ok(true);
            }
        }
        Ok(false)
    }

    /// Puts `text` in place of the file at `path`.
    fn edit_file(&mut self, path: &MountPath, text: &str) -> (r: Result<bool, VfsError>)
        requires
            old(self)@.current(),
        ensures
            file_edited(old(self)@, final(self)@, r, old(self)@.file_edit(path@, text@)),
    {
        match path {
            MountPath::Content(p) => self.edit_content(p, text),
            MountPath::FrontMatter(kind) => self.edit_frontmatter(*kind, text),
            MountPath::Dir(_) => Err(VfsError::IsDir),
        }
    }

    /// Adds a subheading to the section at `path`.
    fn edit_mkdir(&mut self, path: &[String], name: &str) -> (r: Result<bool, VfsError>)
        requires
            old(self)@.current(),
        ensures
            file_edited(old(self)@, final(self)@, r, old(self)@.mkdir_edit(views(path@), name@)),
    {
        proof {
            if self@.section(views(path@)) is Some {
                lemma_section_in_bounds(self@, views(path@));
            }
        }
        match self.tree.find_names(path) {
            Some(parent) => report(self.document.insert_heading(parent, name)),
            None => Err(VfsError::NotFound),
        }
    }

    /// Removes a subheading of the section at `path`.
    fn edit_rmdir(&mut self, path: &[String], name: &str) -> (r: Result<bool, VfsError>)
        requires
            old(self)@.current(),
        ensures
            file_edited(old(self)@, final(self)@, r, old(self)@.rmdir_edit(views(path@), name@)),
    {
        proof {
            lemma_child_in_bounds(self@, views(path@), name@);
        }
        match self.tree.find_names(path) {
            Some(parent) => match parent.child(name) {
                Some(section) => report(self.document.remove_heading(section)),
                None => Err(VfsError::NotFound),
            },
            None => Err(VfsError::NotFound),
        }
    }

    /// Renames a subheading of the section at `path`.
    fn edit_rename(&mut self, path: &[String], name: &str, new_name: &str) -> (r: Result<
        bool,
        VfsError,
    >)
        requires
            old(self)@.current(),
        ensures
            file_edited(
                old(self)@,
                final(self)@,
                r,
                old(self)@.rename_edit(views(path@), name@, new_name@),
            ),
    {
        proof {
            lemma_child_in_bounds(self@, views(path@), name@);
        }
        match self.tree.find_names(path) {
            Some(parent) => match parent.child(name) {
                Some(section) => report(self.document.rename_heading(section, new_name)),
                None => Err(VfsError::NotFound),
            },
            None => Err(VfsError::NotFound),
        }
    }

    /// Moves a subheading of the section at `path` below the section at `new_path`.
    fn edit_move(
        &mut self,
        path: &[String],
        name: &str,
        new_path: &[String],
        new_name: &str,
    ) -> (r: Result<bool, VfsError>)
        requires
            old(self)@.current(),
            old(self)@.shown is None,
        ensures
            file_edited(
                old(self)@,
                final(self)@,
                r,
                old(self)@.move_edit(views(path@), name@, views(new_path@), new_name@),
            ),
    {
        proof {
            lemma_child_in_bounds(self@, views(path@), name@);
            if self@.section(views(new_path@)) is Some {
                lemma_section_in_bounds(self@, views(new_path@));
            }
        }
        let section = match self.tree.find_names(path) {
            Some(parent) => match parent.child(name) {
                Some(section) => section,
                None => {
                    return Err(VfsError::NotFound);
                },
            },
            None => {
                return Err(VfsError::NotFound);
            },
        };
        match self.tree.find_names(new_path) {
            Some(parent) => report(self.document.move_heading(section, parent, new_name)),
            None => Err(VfsError::NotFound),
        }
    }
}

/// The numbers in a table.
fn inos_of(table: &InodeTable) -> (inos: Vec<Ino>)
    ensures
        forall|ino: Ino|
            inos@.contains(ino) == #[trigger] table@.index.paths.contains_key(ino),
{
    let entries = table.entries();
    let mut inos: Vec<Ino> = Vec::new();
    let mut i: usize = 0;
    while i < entries.len()
        invariant
            i <= entries@.len(),
            inos@.len() == i,
            forall|j: int| 0 <= j < i ==> #[trigger] inos@[j] == entries@[j].0,
        decreases entries@.len() - i,
    {
        inos.push(entries[i].0);
        i += 1;
    }
    proof {
        assert forall|ino: Ino|
            inos@.contains(ino) == #[trigger] table@.index.paths.contains_key(ino) by {
            if inos@.contains(ino) {
                let k = choose|k: int| 0 <= k < inos@.len() && inos@[k] == ino;
                assert(entries@[k].0 == ino);
            }
            if table@.index.paths.contains_key(ino) {
                let k = choose|k: int|
                    0 <= k < entries@.len() && (#[trigger] entries@[k]).0 == ino;
                assert(inos@[k] == ino);
            }
        }
    }
    inos
}

/// Records that the numbers of `file` are no longer `before` but `after`.
fn change_owner(
    owner: &mut FxHashMap<Ino, usize>,
    before: &Vec<Ino>,
    after: &Vec<Ino>,
    file: usize,
)
    ensures
        forall|b: Set<Ino>, a: Set<Ino>|
            (forall|ino: Ino| before@.contains(ino) == #[trigger] b.contains(ino)) && (forall|
                ino: Ino,
            | after@.contains(ino) == #[trigger] a.contains(ino)) ==> final(owner)@ == #[trigger] reowned(
                old(owner)@,
                b,
                a,
                file,
            ),
{
    let ghost start = owner@;
    let mut i: usize = 0;
    while i < before.len()
        invariant
            i <= before@.len(),
            forall|ino: Ino| #[trigger]
                owner@.contains_key(ino) == (start.contains_key(ino) && !before@.take(
                    i as int,
                ).contains(ino)),
            forall|ino: Ino| owner@.contains_key(ino) ==> #[trigger] owner@[ino] == start[ino],
        decreases before@.len() - i,
    {
        let _file = table_remove(owner, before[i]);
        let ghost done = before@.take(i as int);
        i += 1;
        proof {
            assert(before@.take(i as int) =~= done.push(before@[i - 1]));
            assert forall|ino: Ino| #[trigger]
                before@.take(i as int).contains(ino) == (done.contains(ino) || ino == before@[i
                - 1]) by {
                lemma_push_contains(done, before@[i - 1], ino);
            }
        }
    }
    assert(before@.take(i as int) =~= before@);
    let ghost left = owner@;
    let mut k: usize = 0;
    while k < after.len()
        invariant
            k <= after@.len(),
            forall|ino: Ino| #[trigger]
                owner@.contains_key(ino) == (left.contains_key(ino) || after@.take(
                    k as int,
                ).contains(ino)),
            forall|ino: Ino|
                owner@.contains_key(ino) ==> #[trigger] owner@[ino] == (if after@.take(
                    k as int,
                ).contains(ino) {
                    file
                } else {
                    left[ino]
                }),
        decreases after@.len() - k,
    {
        table_insert(owner, after[k], file);
        let ghost done = after@.take(k as int);
        k += 1;
        proof {
            assert(after@.take(k as int) =~= done.push(after@[k - 1]));
            assert forall|ino: Ino| #[trigger]
                after@.take(k as int).contains(ino) == (done.contains(ino) || ino == after@[k
                - 1]) by {
                lemma_push_contains(done, after@[k - 1], ino);
            }
        }
    }
    assert(after@.take(k as int) =~= after@);
    proof {
        assert forall|b: Set<Ino>, a: Set<Ino>|
            (forall|ino: Ino| before@.contains(ino) == #[trigger] b.contains(ino)) && (forall|
                ino: Ino,
            | after@.contains(ino) == #[trigger] a.contains(ino)) implies owner@
            == #[trigger] reowned(start, b, a, file) by {
            assert(owner@ =~= reowned(start, b, a, file));
        }
    }
}

proof fn lemma_push_contains(s: Seq<Ino>, x: Ino, ino: Ino)
    ensures
        s.push(x).contains(ino) == (s.contains(ino) || ino == x),
{
    if s.contains(ino) {
        let k = choose|k: int| 0 <= k < s.len() && s[k] == ino;
        assert(s.push(x)[k] == ino);
    }
    if ino == x {
        assert(s.push(x)[s.len() as int] == ino);
    }
}


/// A mount in which `file` may have a tree that is not that of its document.
spec fn wf_but(fs: FsView, file: int) -> bool {
    &&& forall|i: int|
        0 <= i < fs.files.len() && i != file ==> (#[trigger] fs.files[i]).current() && in_step(
            fs.files[i].inodes,
            fs.files[i].tree,
        )
    &&& fs.next > 0
    &&& !fs.readonly
    &&& forall|i: int| 0 <= i < fs.files.len() ==> (#[trigger] fs.files[i]).shown is None
    &&& forall|ino: Ino|
        fs.owner.contains_key(ino) ==> (#[trigger] fs.owner[ino]) < fs.files.len()
    &&& fs.dirs.contains_key(ROOT_INO)
}

/// The mount with the file `f` in place of `file`.
spec fn with_file_view(fs: FsView, file: int, f: FileView) -> FsView {
    FsView { files: fs.files.update(file, f), ..fs }
}

proof fn lemma_rebuilt(fs: FsView, file: usize, document: Seq<BlockView>)
    requires
        file < fs.files.len(),
    ensures
        with_file_view(
            fs,
            file as int,
            FileView { document, ..fs.files[file as int] },
        ).rebuilt(file, document) == fs.rebuilt(file, document),
{
    let f = FileView { document, ..fs.files[file as int] };
    let mid = with_file_view(fs, file as int, f);
    let a = mid.rebuilt(file, document);
    let b = fs.rebuilt(file, document);
    assert(a.files =~= b.files);
}

impl MqFs {
    /// The number of the mount's root.
    pub fn root_ino(&self) -> (ino: Ino)
        ensures
            ino == ROOT_INO,
    {
        ROOT_INO
    }

    /// Whether nothing may be changed.
    pub fn readonly(&self) -> (r: bool)
        ensures
            r == self@.readonly,
    {
        self.readonly
    }

    /// Whether permission bits are loosened for other local users.
    pub fn allow_other(&self) -> (r: bool)
        ensures
            r == self@.allow_other,
    {
        self.allow_other
    }

    /// The user who owns all entries.
    pub fn uid(&self) -> (r: u32)
        ensures
            r == self@.uid,
    {
        self.uid
    }

    /// The group that owns all entries.
    pub fn gid(&self) -> (r: u32)
        ensures
            r == self@.gid,
    {
        self.gid
    }

    fn path_for_ino(&self, ino: Ino) -> (r: Option<(usize, MountPath)>)
        requires
            self@.wf(),
        ensures
            match self@.path_for_ino(ino) {
                Some((file, path)) => r is Some && (r->0).0 == file && (r->0).1@ == path && file
                    < self@.files.len(),
                None => r is None,
            },
    {
        match table_get(&self.ino_owner, ino) {
            Some(file) => {
                assert(self@.owner[ino] < self@.files.len());
                match self.files[*file].inodes.path_for(ino) {
                    Some(path) => Some((*file, path.clone())),
                    None => None,
                }
            },
            None => None,
        }
    }

    fn dir_path(&self, ino: Ino) -> (r: Option<(usize, Vec<String>)>)
        requires
            self@.wf(),
        ensures
            match self@.dir_path(ino) {
                Some((file, path)) => r is Some && (r->0).0 == file && views((r->0).1@) == path
                    && file < self@.files.len(),
                None => r is None,
            },
    {
        match self.path_for_ino(ino) {
            Some((file, MountPath::Dir(path))) => Some((file, path)),
            _ => None,
        }
    }

    /// The number of the entry `name` in the directory `parent`.
    pub fn lookup(&self, parent: Ino, name: &str) -> (r: Result<Ino, VfsError>)
        requires
            self@.wf(),
        ensures
            r == self@.lookup(parent, name@),
    {
        if let Some(dir) = self.placement.dirs.get(parent) {
            return match dir.child(name) {
                Some(ino) => Ok(ino),
                None => Err(VfsError::NotFound),
            };
        }
        let (file, path) = match self.dir_path(parent) {
            Some(found) => found,
            None => {
                return Err(VfsError::NotDir);
            },
        };
        let child = match find_canonical_child(&path, name) {
            Some(child) => child,
            None => if self.has_heading_child(file, &path, name) {
                MountPath::Dir(append_name(&path, name))
            } else {
                return Err(VfsError::NotFound);
            },
        };
        match self.files[file].inodes.ino_for(&child) {
            Some(ino) => Ok(ino),
            None => Err(VfsError::NotFound),
        }
    }

    fn has_heading_child(&self, file: usize, path: &[String], name: &str) -> (r: bool)
        requires
            file < self@.files.len(),
        ensures
            r == (self@.files[file as int].child_section(views(path@), name@) is Some),
    {
        match self.files[file].section(path) {
            Some(section) => section.child(name).is_some(),
            None => false,
        }
    }

    /// The directory above the directory `ino`.
    pub fn parent_of(&self, ino: Ino) -> (r: Result<Ino, VfsError>)
        requires
            self@.wf(),
        ensures
            r == self@.parent_of(ino),
    {
        if let Some(dir) = self.placement.dirs.get(ino) {
            return Ok(dir.parent);
        }
        match self.dir_path(ino) {
            Some((file, path)) => {
                let parent = if path.len() == 0 {
                    match table_get(&self.placement.file_parents, file as u64) {
                        Some(parent) => Some(*parent),
                        None => None,
                    }
                } else {
                    let mut above = path;
                    let ghost names = views(above@);
                    let _last = above.pop();
                    assert(views(above@) =~= names.drop_last());
                    self.files[file].inodes.ino_for(&MountPath::Dir(above))
                };
                match parent {
                    Some(parent) => Ok(parent),
                    None => Ok(ROOT_INO),
                }
            },
            None => Err(VfsError::NotDir),
        }
    }

    /// The attributes of the entry `ino`.
    pub fn getattr(&self, ino: Ino, now: Timestamp) -> (r: Result<FileAttr, VfsError>)
        requires
            self@.wf(),
        ensures
            r == self@.getattr(ino, now),
    {
        if let Some(buf) = table_get(&self.scratch, ino) {
            return Ok(attr_of_file(ino, buf.len(), now));
        }
        if self.placement.dirs.contains(ino) {
            return Ok(attr_of_dir(ino, now));
        }
        match self.path_for_ino(ino) {
            Some((file, path)) => Ok(self.files[file].attr_for(ino, &path, now)),
            None => Err(VfsError::NotFound),
        }
    }

    /// Reads at most `count` bytes of the file `ino` from `offset` on, and tells whether the end is
    /// reached.
    pub fn read(&self, ino: Ino, offset: u64, count: u32) -> (r: Result<(Vec<u8>, bool), VfsError>)
        requires
            self@.wf(),
        ensures
            match self@.read(ino, (offset as usize) as int, (count as usize) as int) {
                Ok((bytes, end)) => r is Ok && (r->Ok_0).0@ == bytes && (r->Ok_0).1 == end,
                Err(e) => r == Err::<(Vec<u8>, bool), VfsError>(e),
            },
    {
        if let Some(buf) = table_get(&self.scratch, ino) {
            return Ok(read_window(buf, offset as usize, count as usize));
        }
        match self.path_for_ino(ino) {
            Some((file, path)) => match self.files[file].bytes_for(&path) {
                Ok(bytes) => Ok(read_window(&bytes, offset as usize, count as usize)),
                Err(e) => Err(e),
            },
            None => Err(VfsError::NotFound),
        }
    }

    /// A page of at most `max_entries` entries, but of at least one, of the directory `ino`, behind
    /// the entry `start_after`, and whether it is the last one. 0 stands for the start.
    pub fn readdir(
        &self,
        ino: Ino,
        start_after: Ino,
        max_entries: usize,
        now: Timestamp,
    ) -> (r: Result<(Vec<DirEntryOwned>, bool), VfsError>)
        requires
            self@.wf(),
        ensures
            match self@.readdir(ino, start_after, max_entries as nat, now) {
                Ok((entries, end)) => r is Ok && views((r->Ok_0).0@) == entries && (r->Ok_0).1
                    == end,
                Err(e) => r == Err::<(Vec<DirEntryOwned>, bool), VfsError>(e),
            },
    {
        if let Some(dir) = self.placement.dirs.get(ino) {
            let entries = list_super_dir(dir, now);
            return Ok(paginate(entries, start_after, max_entries));
        }
        let (file, path) = match self.dir_path(ino) {
            Some(found) => found,
            None => {
                return Err(VfsError::NotDir);
            },
        };
        match self.files[file].section(&path) {
            Some(section) => {
                let entries = list_section(&self.files[file], ino, &path, section, now);
                Ok(paginate(entries, start_after, max_entries))
            },
            None => Err(VfsError::NotFound),
        }
    }

    /// Derives the tree and the numbers of `file` from its document.
    fn rebuild(&mut self, file: usize)
        requires
            file < old(self)@.files.len(),
        ensures
            final(self)@ == old(self)@.rebuilt(file, old(self)@.files[file as int].document),
    {
        let ghost before = self@;
        let inos_before = inos_of(&self.files[file].inodes);
        let tree = self.files[file].document.tree();
        self.files[file].inodes.sync(&mut self.placement.next_ino, &tree);
        self.files[file].tree = tree;
        let inos_after = inos_of(&self.files[file].inodes);
        let ghost mid = self@;
        change_owner(&mut self.ino_owner, &inos_before, &inos_after, file);
        proof {
            let target = before.rebuilt(file, before.files[file as int].document);
            let b = before.files[file as int].inodes.index.paths.dom();
            let a = target.files[file as int].inodes.index.paths.dom();
            assert(self.files@[file as int]@ == target.files[file as int]);
            assert(self@.files =~= target.files);
            assert forall|ino: Ino| inos_before@.contains(ino) == #[trigger] b.contains(ino) by {
                assert(before.files[file as int].inodes.index.paths.contains_key(ino) == b.contains(
                    ino,
                ));
            }
            assert forall|ino: Ino| inos_after@.contains(ino) == #[trigger] a.contains(ino) by {
                assert(target.files[file as int].inodes.index.paths.contains_key(ino) == a.contains(
                    ino,
                ));
            }
            assert(self@.owner == reowned(before.owner, b, a, file));
        }
    }

    /// Goes on after an edit of `file`: `saving` tells whether its document has changed.
    fn finish_edit(
        &mut self,
        file: usize,
        saving: Result<bool, VfsError>,
        next: Next,
        now: Timestamp,
    ) -> (step: Step)
        requires
            file < old(self)@.files.len(),
            wf_but(old(self)@, file as int),
            saving != Ok::<bool, VfsError>(true) ==> old(self)@.files[file as int].current()
                && in_step(
                old(self)@.files[file as int].inodes,
                old(self)@.files[file as int].tree,
            ),
        ensures
            final(self)@.wf(),
            match saving {
                Ok(true) => {
                    &&& final(self)@ == old(self)@.rebuilt(
                        file,
                        old(self)@.files[file as int].document,
                    )
                    &&& step@ == (StepView::Save { file, next: next@ })
                },
                Ok(false) => (final(self)@, step@) == old(self)@.resumed(file, next@, now),
                Err(e) => (final(self)@, step@) == old(self)@.refused(e),
            },
    {
        match saving {
            Ok(true) => {
                self.rebuild(file);
                proof {
                    lemma_rebuilt_wf(*old(self), file);
                }
                Step::Save { file, next }
            },
            Ok(false) => self.resume(file, next, now),
            Err(e) => Step::Finished(Err(e)),
        }
    }

    /// Goes on with a request once `file` is on disk.
    pub fn resume(&mut self, file: usize, next: Next, now: Timestamp) -> (step: Step)
        requires
            old(self)@.wf(),
            !old(self)@.readonly,
            file < old(self)@.files.len(),
        ensures
            final(self)@.wf(),
            (final(self)@, step@) == old(self)@.resumed(file, next@, now),
    {
        match next {
            Next::Attr { ino, entry } => Step::Finished(
                Ok(Reply::Attr(self.files[file].attr_for(ino, &entry, now))),
            ),
            Next::Stat { ino } => self.stat(ino, now),
            Next::NewDir { path } => {
                match self.files[file].inodes.ino_for(&MountPath::Dir(path)) {
                    Some(ino) => Step::Finished(Ok(Reply::Entry(ino, attr_of_dir(ino, now)))),
                    None => Step::Finished(Err(VfsError::Io)),
                }
            },
            Next::Finish => Step::Finished(Ok(Reply::Done)),
            Next::ClearSource { path, from, name } => {
                let ghost before = self@;
                proof {
                    reveal_strlit("");
                    assert(""@ =~= Seq::empty());
                }
                assert(before.files[file as int] == self.files@[file as int]@);
                let saving = self.files[file].edit_content(&path, "");
                assert(self@.files =~= before.files.update(
                    file as int,
                    self@.files[file as int],
                ));
                match saving {
                    Ok(true) => {
                        let ghost document = self@.files[file as int].document;
                        let ghost mid = *self;
                        self.rebuild(file);
                        proof {
                            lemma_rebuilt(before, file, document);
                            lemma_rebuilt_wf(mid, file);
                        }
                        Step::Save { file, next: Next::Forget { from, name } }
                    },
                    Ok(false) => {
                        assert(self@.files =~= before.files);
                        self.forget(from, name);
                        Step::Finished(Ok(Reply::Done))
                    },
                    Err(e) => {
                        assert(self@.files =~= before.files);
                        Step::Finished(Err(e))
                    },
                }
            },
            Next::Forget { from, name } => {
                self.forget(from, name);
                Step::Finished(Ok(Reply::Done))
            },
        }
    }

    fn stat(&self, ino: Ino, now: Timestamp) -> (step: Step)
        requires
            self@.wf(),
        ensures
            step@ == self@.stat_step(ino, now),
    {
        match self.getattr(ino, now) {
            Ok(attr) => Step::Finished(Ok(Reply::Attr(attr))),
            Err(e) => Step::Finished(Err(e)),
        }
    }

    fn forget(&mut self, from: Ino, name: String)
        ensures
            final(self)@ == old(self)@.forgotten(from, name@),
    {
        let ghost before = self@;
        let key = (from, name);
        if let Some(ino) = name_table_remove(&mut self.scratch_by_name, &key) {
            let _buf = table_remove(&mut self.scratch, ino);
            assert(self@.scratch =~= before.scratch.remove(ino));
        } else {
            assert(before.names.remove((from, name@)) =~= before.names);
        }
    }
}

/// What an edit of `file` leaves of the mount before the tree is derived again.
proof fn lemma_after_edit(
    before: FsView,
    mid: FsView,
    file: usize,
    saving: Result<bool, VfsError>,
    edit: Edit,
)
    requires
        before.wf(),
        !before.readonly,
        file < before.files.len(),
        mid == with_file_view(before, file as int, mid.files[file as int]),
        file_edited(before.files[file as int], mid.files[file as int], saving, edit),
    ensures
        wf_but(mid, file as int),
        saving != Ok::<bool, VfsError>(true) ==> mid == before,
        saving == Ok::<bool, VfsError>(true) ==> mid.rebuilt(file, mid.files[file as int].document)
            == before.applied(file, edit).0,
        before.applied(file, edit).1 == saving,
{
    assert forall|i: int| 0 <= i < mid.files.len() && i != file implies (
    #[trigger] mid.files[i]).current() && in_step(mid.files[i].inodes, mid.files[i].tree) by {
        assert(mid.files[i] == before.files[i]);
    }
    assert forall|i: int| 0 <= i < mid.files.len() implies (#[trigger] mid.files[i]).shown
        is None by {
        assert(before.files[i].shown is None);
    }
    if saving == Ok::<bool, VfsError>(true) {
        lemma_rebuilt(before, file, mid.files[file as int].document);
    } else {
        assert(mid.files =~= before.files);
    }
}

impl MqFs {
    /// Empties the file `ino`.
    pub fn truncate(&mut self, ino: Ino, now: Timestamp) -> (step: Step)
        requires
            old(self)@.wf(),
        ensures
            final(self)@.wf(),
            (final(self)@, step@) == old(self)@.truncate(ino, now),
    {
        if self.readonly {
            return Step::Finished(Err(VfsError::ReadOnly));
        }
        let ghost before = self@;
        if table_get(&self.scratch, ino).is_some() {
            table_insert(&mut self.scratch, ino, Vec::new());
            assert(self@.scratch =~= before.scratch.insert(ino, Seq::empty()));
            assert(self@ == (FsView {
                scratch: before.scratch.insert(ino, Seq::empty()),
                ..before
            }));
            return self.stat(ino, now);
        }
        match self.path_for_ino(ino) {
            Some((file, path)) => {
                proof {
                    reveal_strlit("");
                    assert(""@ =~= Seq::empty());
                }
                self.edit_file(file, &path, "", Next::Stat { ino }, now)
            },
            None => self.stat(ino, now),
        }
    }

    /// Sets the size of the file `ino`, as an editor does before it writes a file anew. Only emptying
    /// it has an effect; every other change of attributes is accepted and ignored.
    pub fn set_size(&mut self, ino: Ino, size: Option<u64>, now: Timestamp) -> (step: Step)
        requires
            old(self)@.wf(),
        ensures
            final(self)@.wf(),
            (final(self)@, step@) == old(self)@.set_size(ino, size, now),
    {
        match size {
            Some(0) => self.truncate(ino, now),
            _ => self.stat(ino, now),
        }
    }

    /// Puts `text` in place of the file at `path` of `file`, and goes on with `next`.
    fn edit_file(
        &mut self,
        file: usize,
        path: &MountPath,
        text: &str,
        next: Next,
        now: Timestamp,
    ) -> (step: Step)
        requires
            old(self)@.wf(),
            !old(self)@.readonly,
            file < old(self)@.files.len(),
        ensures
            final(self)@.wf(),
            (final(self)@, step@) == old(self)@.edited(
                file,
                old(self)@.files[file as int].file_edit(path@, text@),
                next@,
                now,
            ),
    {
        let ghost before = self@;
        assert(before.files[file as int] == self.files@[file as int]@);
        let saving = self.files[file].edit_file(path, text);
        proof {
            assert(self@.files =~= before.files.update(file as int, self@.files[file as int]));
            lemma_after_edit(
                before,
                self@,
                file,
                saving,
                before.files[file as int].file_edit(path@, text@),
            );
        }
        self.finish_edit(file, saving, next, now)
    }

    /// Writes `data` into the file `ino` at `offset`.
    pub fn write(&mut self, ino: Ino, offset: u64, data: &[u8], now: Timestamp) -> (step: Step)
        requires
            old(self)@.wf(),
            !old(self)@.readonly && old(self)@.contents(ino) is Ok ==> (offset as usize) + data@.len()
                <= usize::MAX,
        ensures
            final(self)@.wf(),
            (final(self)@, step@) == old(self)@.write(
                ino,
                (offset as usize) as int,
                data@,
                now,
            ),
    {
        if self.readonly {
            return Step::Finished(Err(VfsError::ReadOnly));
        }
        let offset = offset as usize;
        let ghost before = self@;
        if let Some(mut buf) = table_remove(&mut self.scratch, ino) {
            splice(&mut buf, offset, data);
            let len = buf.len();
            let ghost written = buf@;
            table_insert(&mut self.scratch, ino, buf);
            assert(self@.scratch =~= before.scratch.insert(ino, written));
            return Step::Finished(Ok(Reply::Attr(attr_of_file(ino, len, now))));
        }
        assert(self@.scratch =~= before.scratch);
        match self.path_for_ino(ino) {
            Some((file, path)) => {
                match self.files[file].bytes_for(&path) {
                    Ok(mut buf) => {
                        splice(&mut buf, offset, data);
                        let text = to_text_lossy(buf);
                        let entry = path.clone();
                        self.edit_file(file, &path, &text, Next::Attr { ino, entry }, now)
                    },
                    Err(e) => Step::Finished(Err(e)),
                }
            },
            None => Step::Finished(Err(VfsError::NotFound)),
        }
    }

    fn alloc_scratch(&mut self, parent: Ino, name: &str) -> (ino: Ino)
        ensures
            final(self)@ == old(self)@.with_buffer(parent, name@),
            ino == old(self)@.next,
    {
        let ghost before = self@;
        let ino = take_ino(&mut self.placement.next_ino);
        table_insert(&mut self.scratch, ino, Vec::new());
        name_table_insert(&mut self.scratch_by_name, (parent, name.to_string()), ino);
        assert(self@.scratch =~= before.scratch.insert(ino, Seq::empty()));
        ino
    }

    /// Creates the file `name` in the directory `parent`, or opens it if it is there.
    pub fn create(&mut self, parent: Ino, name: &str, now: Timestamp) -> (r: Result<
        (Ino, FileAttr),
        VfsError,
    >)
        requires
            old(self)@.wf(),
        ensures
            final(self)@.wf(),
            (final(self)@, r) == old(self)@.create(parent, name@, now),
    {
        if self.readonly {
            return Err(VfsError::ReadOnly);
        }
        let (file, path) = match self.dir_path(parent) {
            Some(found) => found,
            None => {
                return Err(VfsError::NotFound);
            },
        };
        if let Some(entry) = find_canonical_child(&path, name) {
            return match self.files[file].inodes.ino_for(&entry) {
                Some(ino) => Ok((ino, self.files[file].attr_for(ino, &entry, now))),
                None => Err(VfsError::Io),
            };
        }
        if let Some(ino) = name_table_get(&self.scratch_by_name, &(parent, name.to_string())) {
            let len = match table_get(&self.scratch, ino) {
                Some(buf) => buf.len(),
                None => 0,
            };
            return Ok((ino, attr_of_file(ino, len, now)));
        }
        let ino = self.alloc_scratch(parent, name);
        Ok((ino, attr_of_file(ino, 0, now)))
    }

    /// Creates the file `name` in the directory `parent`, which must not be there.
    pub fn create_exclusive(&mut self, parent: Ino, name: &str) -> (r: Result<Ino, VfsError>)
        requires
            old(self)@.wf(),
        ensures
            final(self)@.wf(),
            (final(self)@, r) == old(self)@.create_exclusive(parent, name@),
    {
        if self.readonly {
            return Err(VfsError::ReadOnly);
        }
        let exists = if let Some(dir) = self.placement.dirs.get(parent) {
            dir.child(name).is_some()
        } else {
            match self.dir_path(parent) {
                Some((file, path)) => find_canonical_child(&path, name).is_some()
                    || self.has_heading_child(file, &path, name) || name_table_get(
                    &self.scratch_by_name,
                    &(parent, name.to_string()),
                ).is_some(),
                None => {
                    return Err(VfsError::NotFound);
                },
            }
        };
        if exists {
            return Err(VfsError::Exists);
        }
        Ok(self.alloc_scratch(parent, name))
    }

    /// Makes the directory `name` in the directory `parent`.
    pub fn mkdir(&mut self, parent: Ino, name: &str, now: Timestamp) -> (step: Step)
        requires
            old(self)@.wf(),
        ensures
            final(self)@.wf(),
            (final(self)@, step@) == old(self)@.mkdir(parent, name@, now),
    {
        if self.readonly {
            return Step::Finished(Err(VfsError::ReadOnly));
        }
        if self.placement.dirs.contains(parent) {
            return Step::Finished(Err(VfsError::PermissionDenied));
        }
        match self.dir_path(parent) {
            Some((file, path)) => {
                let ghost before = self@;
                assert(before.files[file as int] == self.files@[file as int]@);
                let saving = self.files[file].edit_mkdir(&path, name);
                proof {
                    assert(self@.files =~= before.files.update(
                        file as int,
                        self@.files[file as int],
                    ));
                    lemma_after_edit(
                        before,
                        self@,
                        file,
                        saving,
                        before.files[file as int].mkdir_edit(views(path@), name@),
                    );
                }
                self.finish_edit(file, saving, Next::NewDir { path: append_name(&path, name) }, now)
            },
            None => Step::Finished(Err(VfsError::NotFound)),
        }
    }

    /// Removes the entry `name` of the directory `parent`. The files that stand for part of the
    /// document are emptied.
    pub fn remove(&mut self, parent: Ino, name: &str, now: Timestamp) -> (step: Step)
        requires
            old(self)@.wf(),
        ensures
            final(self)@.wf(),
            (final(self)@, step@) == old(self)@.remove(parent, name@, now),
    {
        if self.readonly {
            return Step::Finished(Err(VfsError::ReadOnly));
        }
        let key = (parent, name.to_string());
        if name_table_get(&self.scratch_by_name, &key).is_some() {
            self.forget(parent, name.to_string());
            return Step::Finished(Ok(Reply::Done));
        }
        if self.placement.dirs.contains(parent) {
            return Step::Finished(Err(VfsError::PermissionDenied));
        }
        match self.dir_path(parent) {
            Some((file, path)) => {
                if let Some(entry) = find_canonical_child(&path, name) {
                    proof {
                        reveal_strlit("");
                        assert(""@ =~= Seq::empty());
                    }
                    return self.edit_file(file, &entry, "", Next::Finish, now);
                }
                let ghost before = self@;
                assert(before.files[file as int] == self.files@[file as int]@);
                let saving = self.files[file].edit_rmdir(&path, name);
                proof {
                    assert(self@.files =~= before.files.update(
                        file as int,
                        self@.files[file as int],
                    ));
                    lemma_after_edit(
                        before,
                        self@,
                        file,
                        saving,
                        before.files[file as int].rmdir_edit(views(path@), name@),
                    );
                }
                self.finish_edit(file, saving, Next::Finish, now)
            },
            None => Step::Finished(Err(VfsError::NotFound)),
        }
    }

    /// Renames the entry `from_name` of the directory `from` to `to_name` in the directory `to`.
    pub fn rename(
        &mut self,
        from: Ino,
        from_name: &str,
        to: Ino,
        to_name: &str,
        now: Timestamp,
    ) -> (step: Step)
        requires
            old(self)@.wf(),
        ensures
            final(self)@.wf(),
            (final(self)@, step@) == old(self)@.rename(from, from_name@, to, to_name@, now),
    {
        if self.readonly {
            return Step::Finished(Err(VfsError::ReadOnly));
        }
        match self.dir_path(to) {
            Some((file, path)) => match find_canonical_child(&path, to_name) {
                Some(entry) => self.adopt(from, from_name, file, &entry, now),
                None => self.move_entry(from, from_name, to, to_name, file, &path, now),
            },
            None => Step::Finished(Err(VfsError::NotFound)),
        }
    }

    /// Adopts the entry `from_name` of the directory `from` as the content of the file at `entry`.
    fn adopt(
        &mut self,
        from: Ino,
        from_name: &str,
        file: usize,
        entry: &MountPath,
        now: Timestamp,
    ) -> (step: Step)
        requires
            old(self)@.wf(),
            !old(self)@.readonly,
            file < old(self)@.files.len(),
        ensures
            final(self)@.wf(),
            (final(self)@, step@) == old(self)@.adopted(from, from_name@, file, entry@, now),
    {
        let key = (from, from_name.to_string());
        if let Some(ino) = name_table_get(&self.scratch_by_name, &key) {
            return match table_get(&self.scratch, ino) {
                Some(buf) => {
                    let text = to_text_lossy(slice_to_vec(buf));
                    let next = Next::Forget { from, name: from_name.to_string() };
                    self.edit_file(file, entry, &text, next, now)
                },
                None => Step::Finished(Err(VfsError::NotFound)),
            };
        }
        if same_text(from_name, CONTENT_FILE) {
            return match self.dir_path(from) {
                Some((source_file, source_path)) => {
                    if source_file != file {
                        return Step::Finished(Err(VfsError::Unsupported));
                    }
                    if let MountPath::Content(path) = entry {
                        if same_names(path, &source_path) {
                            return Step::Finished(Ok(Reply::Done));
                        }
                    }
                    assert(self@.files[file as int] == self.files@[file as int]@);
                    let text = to_text_lossy(self.files[file].section_bytes(&source_path));
                    let next = Next::ClearSource {
                        path: source_path,
                        from,
                        name: from_name.to_string(),
                    };
                    self.edit_file(file, entry, &text, next, now)
                },
                None => Step::Finished(Err(VfsError::NotFound)),
            };
        }
        Step::Finished(Err(VfsError::NotFound))
    }

    /// Moves the entry `from_name` of the directory `from` to the directory `to`, which is at `path`
    /// in `file`.
    fn move_entry(
        &mut self,
        from: Ino,
        from_name: &str,
        to: Ino,
        to_name: &str,
        file: usize,
        path: &[String],
        now: Timestamp,
    ) -> (step: Step)
        requires
            old(self)@.wf(),
            !old(self)@.readonly,
            file < old(self)@.files.len(),
        ensures
            final(self)@.wf(),
            (final(self)@, step@) == old(self)@.moved(
                from,
                from_name@,
                to,
                to_name@,
                file,
                views(path@),
                now,
            ),
    {
        let key = (from, from_name.to_string());
        if let Some(ino) = name_table_get(&self.scratch_by_name, &key) {
            let _ino = name_table_remove(&mut self.scratch_by_name, &key);
            name_table_insert(&mut self.scratch_by_name, (to, to_name.to_string()), ino);
            return Step::Finished(Ok(Reply::Done));
        }
        let ghost before = self@;
        assert(before.files[file as int] == self.files@[file as int]@);
        assert(before.files[file as int].shown is None);
        if from == to {
            let saving = self.files[file].edit_rename(path, from_name, to_name);
            proof {
                assert(self@.files =~= before.files.update(file as int, self@.files[file as int]));
                lemma_after_edit(
                    before,
                    self@,
                    file,
                    saving,
                    before.files[file as int].rename_edit(views(path@), from_name@, to_name@),
                );
            }
            return self.finish_edit(file, saving, Next::Finish, now);
        }
        match self.dir_path(from) {
            Some((source_file, source_path)) => {
                if source_file != file {
                    return Step::Finished(Err(VfsError::Unsupported));
                }
                let saving = self.files[file].edit_move(&source_path, from_name, path, to_name);
                proof {
                    assert(self@.files =~= before.files.update(
                        file as int,
                        self@.files[file as int],
                    ));
                    lemma_after_edit(
                        before,
                        self@,
                        file,
                        saving,
                        before.files[file as int].move_edit(
                            views(source_path@),
                            from_name@,
                            views(path@),
                            to_name@,
                        ),
                    );
                }
                self.finish_edit(file, saving, Next::Finish, now)
            },
            None => Step::Finished(Err(VfsError::NotFound)),
        }
    }

    /// Decides what to do with `file`, which has to be brought to disk. `current_mtime` is the time
    /// at which the file on disk was last changed.
    pub fn plan_save(&self, file: usize, current_mtime: Option<Timestamp>) -> (plan: SavePlan)
        requires
            file < self@.files.len(),
        ensures
            plan@ == save_plan(self@.files[file as int], current_mtime),
    {
        let f = &self.files[file];
        let text = f.document.render();
        if same_text(&text, &f.last_persisted) {
            return SavePlan::UpToDate;
        }
        if let (Some(known), Some(current)) = (f.last_known_mtime, current_mtime) {
            if current.is_after(known) {
                return SavePlan::Conflict;
            }
        }
        SavePlan::Write(text)
    }

    /// Takes note that `text` was written to disk, and of the time at which the file was then last
    /// changed.
    pub fn record_saved(&mut self, file: usize, text: String, mtime: Option<Timestamp>)
        requires
            old(self)@.wf(),
            file < old(self)@.files.len(),
        ensures
            final(self)@.wf(),
            final(self)@ == old(self)@.saved(file, text@, mtime),
    {
        let ghost before = self@;
        self.files[file].last_persisted = text;
        self.files[file].last_known_mtime = mtime;
        proof {
            assert(self@.files =~= before.saved(file, text@, mtime).files);
            assert forall|i: int| 0 <= i < self@.files.len() implies (
            #[trigger] self@.files[i]).current() && in_step(
                self@.files[i].inodes,
                self@.files[i].tree,
            ) && self@.files[i].shown == before.files[i].shown by {
                assert(before.files[i].current());
            }
        }
    }

    /// The path on disk of `file`.
    pub fn source_path(&self, file: usize) -> (path: &Vec<u8>)
        requires
            file < self@.files.len(),
        ensures
            path@ == self@.files[file as int].source_path,
    {
        &self.files[file].source_path
    }
}

/// The directory that is reached exists, and so does the root.
pub(crate) proof fn lemma_super_dir_at(dirs: Map<Ino, SuperView>, next: Ino, names: Seq<Seq<char>>)
    requires
        dirs.contains_key(ROOT_INO),
    ensures
        super_dir_at(dirs, next, names).0.contains_key(ROOT_INO),
        super_dir_at(dirs, next, names).0.contains_key(super_dir_at(dirs, next, names).2),
        next > 0 ==> super_dir_at(dirs, next, names).1 > 0,
    decreases names.len(),
{
    if names.len() > 0 {
        lemma_super_dir_at(dirs, next, names.drop_last());
    }
}

impl MqFs {
    /// Mounts `entries`. The mount is read-only also where sections of a file are hidden.
    pub fn new(
        entries: Vec<Source>,
        readonly: bool,
        allow_other: bool,
        uid: u32,
        gid: u32,
    ) -> (fs: MqFs)
        requires
            forall|i: int| 0 <= i < entries@.len() ==> (#[trigger] entries@[i]).mount_path@.len() > 0,
        ensures
            fs@.wf(),
            fs@ == mount_of(views(entries@), readonly, allow_other, uid, gid),
    {
        broadcast use group_views;

        let ghost sources = views(entries@);
        let mut hidden = false;
        let mut leaves: Vec<Leaf> = Vec::new();
        let mut i: usize = 0;
        while i < entries.len()
            invariant
                i <= entries@.len(),
                sources == views(entries@),
                hidden == exists|j: int| 0 <= j < i && (#[trigger] sources[j]).shown is Some,
                leaf_views(leaves@) == leaves_of(sources.take(i as int)),
            decreases entries@.len() - i,
        {
            if entries[i].shown.is_some() {
                hidden = true;
                assert(sources[i as int].shown is Some);
            }
            let ghost before = leaf_views(leaves@);
            let path = copy_names(&entries[i].mount_path);
            let ghost names = views(path@);
            assert(names == sources[i as int].mount_path);
            leaves.push((i, path));
            proof {
                assert(leaf_views(leaves@) =~= before.push((i, names)));
                assert(leaves_of(sources.take(i + 1)) =~= leaves_of(sources.take(i as int)).push(
                    (i, names),
                ));
            }
            i += 1;
        }
        assert(sources.take(i as int) =~= sources);
        let mut fs = MqFs {
            files: Vec::new(),
            placement: Placement {
                dirs: SuperDirs::new(),
                file_parents: FxHashMap::default(),
                next_ino: ROOT_INO + 1,
            },
            ino_owner: FxHashMap::default(),
            scratch: FxHashMap::default(),
            scratch_by_name: name_table_new(),
            mounted_paths: byte_strings_new(),
            readonly: readonly || hidden,
            allow_other,
            uid,
            gid,
        };
        let ghost bare = bare_mount(readonly || hidden, allow_other, uid, gid);
        proof {
            assert(fs@.files =~= bare.files);
            assert(fs@.owner =~= bare.owner);
            assert(fs@.scratch =~= bare.scratch);
            assert(fs@.file_parents =~= bare.file_parents);
            assert(fs@ == bare);
            assert(sources.take(0) =~= Seq::empty());
        }
        let mut entries = entries;
        let mut roots: Vec<Ino> = Vec::new();
        let mut k: usize = 0;
        let n = entries.len();
        while k < n
            invariant
                k <= n,
                n == sources.len(),
                entries@.len() == n - k,
                views(entries@) == sources.skip(k as int),
                fs@ == with_all_unplaced(bare, sources.take(k as int)),
                fs@.files.len() == k,
                fs@.dirs == bare.dirs,
                fs@.file_parents == bare.file_parents,
                fs@.scratch == bare.scratch,
                fs@.names == bare.names,
                fs@.readonly == bare.readonly,
                roots@ == roots_of(fs@.files),
                fs@.next > 0,
                forall|j: int| 0 <= j < k ==> (#[trigger] fs@.files[j]).current() && in_step(
                    fs@.files[j].inodes,
                    fs@.files[j].tree,
                ) && fs@.files[j].shown == sources[j].shown,
                forall|ino: Ino|
                    fs@.owner.contains_key(ino) ==> (#[trigger] fs@.owner[ino]) < k,
            decreases n - k,
        {
            let ghost left = entries@;
            let source = entries.remove(0);
            let ghost s = source@;
            let ghost before = fs@;
            proof {
                assert(s == sources[k as int]) by {
                    assert(views(left)[0] == sources.skip(k as int)[0]);
                }
                assert(sources.take(k + 1).drop_last() =~= sources.take(k as int));
                assert(sources.take(k + 1).last() == s);
                assert(views(entries@) =~= sources.skip(k + 1)) by {
                    assert(views(left) == sources.skip(k as int));
                    assert(entries@ =~= left.drop_first());
                    assert forall|j: int| 0 <= j < entries@.len() implies views(entries@)[j]
                        == sources.skip(k + 1)[j] by {
                        assert(views(left)[j + 1] == sources.skip(k as int)[j + 1]);
                    }
                }
            }
            proof {
                law_synced_table_is_in_step(
                    empty_table(),
                    before.next,
                    shown_tree(s.document, s.shown),
                );
            }
            let root = fs.open_file(source);
            roots.push(root);
            assert(roots@ =~= roots_of(fs@.files));
            k += 1;
        }
        proof {
            assert(sources.take(k as int) =~= sources);
            assert(leaves_of(sources) == leaf_views(leaves@));
            assert forall|j: int| 0 <= j < leaves@.len() implies (#[trigger] leaf_views(
                leaves@,
            )[j]).0 < roots@.len() && leaf_views(leaves@)[j].1.len() > 0 by {
                assert(leaf_views(leaves@)[j] == leaves_of(sources)[j]);
            }
        }
        let ghost unplaced = fs@;
        let ghost start = fresh_layout(fs.placement);
        let dir = build_super_level(&mut fs.placement, ROOT_INO, ROOT_INO, leaves, &roots);
        fs.placement.dirs.insert(ROOT_INO, dir);
        proof {
            assert(fs@.files =~= unplaced.files);
            assert forall|j: int| 0 <= j < fs@.files.len() && !fs@.readonly implies (
            #[trigger] fs@.files[j]).shown is None by {
                assert(unplaced.files[j].shown == sources[j].shown);
            }
            assert forall|j: int| 0 <= j < fs@.files.len() implies (
            #[trigger] fs@.files[j]).current() && in_step(fs@.files[j].inodes, fs@.files[j].tree) by {
                assert(unplaced.files[j].current());
            }
            lemma_laid_out_fresh(start, leaves_of(sources), ROOT_INO, roots@, ROOT_INO);
            assert forall|ino: Ino| fs@.owner.contains_key(ino) implies (
            #[trigger] fs@.owner[ino]) < fs@.files.len() by {
                assert(unplaced.owner[ino] < k);
            }
            assert(fs@.dirs.contains_key(ROOT_INO));
        }
        fs
    }

    /// Opens a file that is not an entry of a directory yet, and returns the number of its own
    /// directory.
    fn open_file(&mut self, source: Source) -> (root: Ino)
        ensures
            final(self)@ == with_unplaced(old(self)@, source@),
            final(self)@.files.len() == old(self)@.files.len() + 1,
            root == final(self)@.files.last().inodes.shadow.dir,
    {
        let ghost before = self@;
        let path = slice_to_vec(&source.path);
        let index = self.files.len();
        let ghost s = source@;
        let file = FileMount::open(source, &mut self.placement.next_ino);
        let ghost f = file@;
        let root = file.inodes.root_dir_ino();
        let none: Vec<Ino> = Vec::new();
        let inos = inos_of(&file.inodes);
        self.files.push(file);
        change_owner(&mut self.ino_owner, &none, &inos, index);
        byte_strings_insert(&mut self.mounted_paths, path);
        proof {
            let target = with_unplaced(before, s);
            assert(self@.files =~= before.files.push(f));
            let b = Set::<Ino>::empty();
            let a = f.inodes.index.paths.dom();
            assert forall|ino: Ino| none@.contains(ino) == #[trigger] b.contains(ino) by {}
            assert forall|ino: Ino| inos@.contains(ino) == #[trigger] a.contains(ino) by {
                assert(f.inodes.index.paths.contains_key(ino) == a.contains(ino));
            }
            assert(self@.owner == reowned(before.owner, b, a, index));
        }
        root
    }

    /// The directory called `raw_name` below the directory `parent`, which is made if it is not
    /// there.
    fn get_or_create_super_dir(&mut self, parent: Ino, raw_name: &str) -> (ino: Ino)
        requires
            old(self)@.dirs.contains_key(parent),
        ensures
            ({
                let (dirs, next, found) = super_dir_below(
                    old(self)@.dirs,
                    old(self)@.next,
                    parent,
                    raw_name@,
                );
                &&& final(self)@ == (FsView { dirs, next, ..old(self)@ })
                &&& ino == found
            }),
    {
        if let Some(dir) = self.placement.dirs.get(parent) {
            if let Some(ino) = dir.child(raw_name) {
                if self.placement.dirs.contains(ino) {
                    return ino;
                }
            }
        }
        let ino = take_ino(&mut self.placement.next_ino);
        self.placement.dirs.insert(ino, SuperDir::new(parent));
        self.placement.dirs.add_child(parent, raw_name, ino);
        ino
    }

    /// Adds a file that was found after the mount was made. A file that is already mounted is left
    /// alone.
    pub fn watch_add(&mut self, source: Source)
        requires
            old(self)@.wf(),
            source@.shown is Some ==> old(self)@.readonly,
        ensures
            final(self)@.wf(),
            final(self)@ == old(self)@.with_file(source@),
    {
        let n = source.mount_path.len();
        if n == 0 || byte_strings_contains(&self.mounted_paths, &source.path) {
            return;
        }
        let ghost before = self@;
        let ghost s = source@;
        let index = self.files.len();
        let names = copy_names(&source.mount_path);
        let root = self.open_file(source);
        let ghost opened_fs = self@;
        let mut parent = ROOT_INO;
        let mut i: usize = 0;
        assert(s.mount_path.take(0) =~= Seq::empty());
        while i < n - 1
            invariant
                i < n,
                n == names@.len(),
                views(names@) == s.mount_path,
                opened_fs.dirs.contains_key(ROOT_INO),
                ({
                    let (dirs, next, found) = super_dir_at(
                        opened_fs.dirs,
                        opened_fs.next,
                        s.mount_path.take(i as int),
                    );
                    &&& self@ == (FsView { dirs, next, ..opened_fs })
                    &&& parent == found
                }),
            decreases n - i,
        {
            proof {
                lemma_super_dir_at(
                    opened_fs.dirs,
                    opened_fs.next,
                    s.mount_path.take(i as int),
                );
                assert(s.mount_path.take(i + 1).drop_last() =~= s.mount_path.take(i as int));
                assert(s.mount_path.take(i + 1).last() == views(names@)[i as int]);
            }
            parent = self.get_or_create_super_dir(parent, &names[i]);
            i += 1;
        }
        proof {
            assert(s.mount_path.take(i as int) =~= s.mount_path.drop_last());
            lemma_super_dir_at(opened_fs.dirs, opened_fs.next, s.mount_path.drop_last());
            assert(s.mount_path.last() == views(names@)[n - 1]);
        }
        self.placement.dirs.add_child(parent, &names[n - 1], root);
        table_insert(&mut self.placement.file_parents, index as u64, parent);
        proof {
            let after = before.with_file(s);
            assert(self@ == after);
            law_synced_table_is_in_step(
                empty_table(),
                before.next,
                shown_tree(s.document, s.shown),
            );
            assert forall|j: int| 0 <= j < after.files.len() implies (
            #[trigger] after.files[j]).current() && in_step(
                after.files[j].inodes,
                after.files[j].tree,
            ) && (!after.readonly ==> after.files[j].shown is None) by {
                if j < before.files.len() {
                    assert(after.files[j] == before.files[j]);
                }
            }
        }
    }
}

proof fn lemma_rebuilt_wf(fs: MqFs, file: usize)
    requires
        file < fs@.files.len(),
        wf_but(fs@, file as int),
    ensures
        fs@.rebuilt(file, fs@.files[file as int].document).wf(),
{
    let after = fs@.rebuilt(file, fs@.files[file as int].document);
    law_synced_table_is_in_step(
        fs@.files[file as int].inodes,
        fs@.next,
        tree_of(fs@.files[file as int].document),
    );
    assert forall|i: int| 0 <= i < after.files.len() implies (#[trigger] after.files[i]).current()
        && in_step(after.files[i].inodes, after.files[i].tree) && after.files[i].shown is None by {
        if i != file {
            assert(after.files[i] == fs@.files[i]);
        }
        assert(fs@.files[i].shown is None);
    }
}

/// The entries of a directory above the files.
fn list_super_dir(dir: &SuperDir, now: Timestamp) -> (entries: Vec<DirEntryOwned>)
    ensures
        views(entries@) == super_entries(dir@.children, now),
{
    let mut entries: Vec<DirEntryOwned> = Vec::new();
    let mut i: usize = 0;
    while i < dir.children.len()
        invariant
            i <= dir.children@.len(),
            entries@.len() == i,
            forall|j: int|
                0 <= j < i ==> #[trigger] entries@[j]@ == super_entries(dir@.children, now)[j],
        decreases dir.children@.len() - i,
    {
        let ino = dir.children[i].1;
        entries.push(
            DirEntryOwned { ino, name: dir.children[i].0.clone(), attr: attr_of_dir(ino, now) },
        );
        i += 1;
    }
    assert(views(entries@) =~= super_entries(dir@.children, now));
    entries
}

/// The entries of the directory at `path` of a file, whose own number is `dir`.
fn list_section(
    file: &FileMount,
    dir: Ino,
    path: &[String],
    section: &Section,
    now: Timestamp,
) -> (entries: Vec<DirEntryOwned>)
    requires
        file@.current(),
    ensures
        views(entries@) == file@.entries(dir, views(path@), section@, now),
{
    broadcast use {group_views, lemma_section_children};

    let mut entries: Vec<DirEntryOwned> = Vec::new();
    let content_ino = match file.inodes.ino_for(&MountPath::Content(copy_names(path))) {
        Some(ino) => ino,
        None => dir,
    };
    entries.push(
        DirEntryOwned {
            ino: content_ino,
            name: CONTENT_FILE.to_string(),
            attr: attr_of_file(content_ino, file.section_bytes(path).len(), now),
        },
    );
    if path.len() == 0 {
        if let Some((kind, _)) = file.tree.front_matter {
            if let Some(ino) = file.inodes.ino_for(&MountPath::FrontMatter(kind)) {
                entries.push(
                    DirEntryOwned {
                        ino,
                        name: kind.file_name().to_string(),
                        attr: attr_of_file(ino, file.frontmatter_bytes(kind).len(), now),
                    },
                );
            }
        }
    }
    let ghost files = seq![file@.content_entry(dir, views(path@), now)]
        + file@.frontmatter_entries(views(path@), now);
    assert(views(entries@) =~= files);
    let mut i: usize = 0;
    assert(files + Seq::empty() =~= files);
    while i < section.children.len()
        invariant
            i <= section.children@.len(),
            views(entries@) == files + file@.child_entries(
                views(path@),
                section@.children,
                i as nat,
                now,
            ),
        decreases section.children@.len() - i,
    {
        broadcast use {group_views, lemma_section_children};

        let child = &section.children[i];
        assert(section@.children[i as int] == child@);
        let ghost before = file@.child_entries(views(path@), section@.children, i as nat, now);
        if let Some(ino) = file.inodes.ino_for(&MountPath::Dir(append_name(path, &child.name))) {
            let entry = DirEntryOwned {
                ino,
                name: child.name.clone(),
                attr: attr_of_dir(ino, now),
            };
            assert(files + before.push(entry@) =~= (files + before).push(entry@));
            entries.push(entry);
        }
        i += 1;
    }
    entries
}

/// The index of the first entry with the number `ino`.
fn find_entry(entries: &Vec<DirEntryOwned>, ino: Ino) -> (r: Option<usize>)
    ensures
        match entry_index(views(entries@), ino) {
            Some(i) => r == Some(i as usize) && 0 <= i < entries@.len(),
            None => r is None,
        },
{
    let ghost all = views(entries@);
    let mut i: usize = 0;
    assert(all.skip(0) =~= all);
    while i < entries.len()
        invariant
            i <= entries@.len(),
            all == views(entries@),
            entry_index(all, ino) == (match entry_index(all.skip(i as int), ino) {
                Some(j) => Some(j + i),
                None => None,
            }),
        decreases entries@.len() - i,
    {
        assert(all.skip(i as int)[0] == all[i as int]);
        assert(all.skip(i as int).drop_first() =~= all.skip(i + 1));
        if entries[i].ino == ino {
            return Some(i);
        }
        i += 1;
    }
    None
}

/// The page of at most `max_entries` entries, but of at least one, behind the entry `start_after`,
/// and whether it is the last one. 0 stands for the start.
pub fn paginate(entries: Vec<DirEntryOwned>, start_after: Ino, max_entries: usize) -> (r: (
    Vec<DirEntryOwned>,
    bool,
))
    ensures
        (views(r.0@), r.1) == page(views(entries@), start_after, max_entries as nat),
{
    broadcast use group_views;

    let ghost all = views(entries@);
    let n = entries.len();
    let start = if start_after == 0 {
        0
    } else {
        match find_entry(&entries, start_after) {
            Some(i) => i + 1,
            None => n,
        }
    };
    assert(start == page_start(all, start_after));
    let size = if max_entries > 1 {
        max_entries
    } else {
        1
    };
    let mut entries = entries;
    let mut rest = entries.split_off(start);
    assert(views(rest@) =~= all.skip(start as int));
    if rest.len() <= size {
        (rest, true)
    } else {
        rest.truncate(size);
        assert(views(rest@) =~= all.skip(start as int).take(size as int));
        (rest, false)
    }
}

} // verus!
