//! What a mount does, as mathematics: the state of a mount and its answers to requests.
use vstd::prelude::*;

use crate::block::BlockView;
use crate::bytes::{spliced, text_of, window};
use crate::document::{
    inserted, removed, renamed, reparented, replaced, with_front_matter, Refusal, CONTENT_FILE,
};
use crate::inode::{next_ino_after, synced, PathView, ROOT_INO};
use crate::mount::{dir_attr, file_attr, opened, FileView, SourceView};
use crate::numbering::in_step;
use crate::section::{child_index, tree_of, FrontMatterKind, SectionView};
use crate::supers::{child_ino, empty_dir, laid_out, with_child, Layout, SuperView};
use crate::vfs::{DirEntryView, FileAttr, Ino, Timestamp, VfsError};

verus! {

/// What a request is answered with.
#[derive(Debug, Clone, Copy, PartialEq, Eq, Structural)]
pub enum Reply {
    /// The attributes of an entry.
    Attr(FileAttr),
    /// An entry with its attributes.
    Entry(Ino, FileAttr),
    /// Nothing to report.
    Done,
}

/// What is left of a request once the file is on disk.
pub enum NextView {
    /// Answer with the attributes of this entry of the file.
    Attr { ino: Ino, entry: PathView },
    /// Answer with the attributes of whatever has this number.
    Stat { ino: Ino },
    /// Answer with the new directory at this path of the file.
    NewDir { path: Seq<Seq<char>> },
    /// Answer that all is done.
    Finish,
    /// Empty the `content.md` at this path of the file, then forget the buffer of that name.
    ClearSource { path: Seq<Seq<char>>, from: Ino, name: Seq<char> },
    /// Forget the buffer of that name.
    Forget { from: Ino, name: Seq<char> },
}

/// Where a request stands.
pub enum StepView {
    /// It is answered.
    Finished(Result<Reply, VfsError>),
    /// A file has to be brought to disk; then the request goes on.
    Save { file: usize, next: NextView },
}

/// The state of a mount.
pub struct FsView {
    pub files: Seq<FileView>,
    /// The directories above the files.
    pub dirs: Map<Ino, SuperView>,
    /// The directory that each file is an entry of.
    pub file_parents: Map<u64, Ino>,
    /// The file that each number belongs to.
    pub owner: Map<Ino, usize>,
    /// The next free number.
    pub next: Ino,
    /// Buffers: files that an editor created under a name that the mount has no use for.
    pub scratch: Map<Ino, Seq<u8>>,
    /// The buffer under each name in a directory.
    pub names: Map<(Ino, Seq<char>), Ino>,
    /// The paths on disk of the mounted files.
    pub mounted: Set<Seq<u8>>,
    pub readonly: bool,
    pub allow_other: bool,
    pub uid: u32,
    pub gid: u32,
}

/// The front matter that is shown under `name`.
pub open spec fn frontmatter_named(name: Seq<char>) -> Option<FrontMatterKind> {
    if name == FrontMatterKind::Yaml.spec_file_name() {
        Some(FrontMatterKind::Yaml)
    } else if name == FrontMatterKind::Toml.spec_file_name() {
        Some(FrontMatterKind::Toml)
    } else {
        None
    }
}

/// The file that stands for part of the document under `name` in the directory at `parent`: every
/// directory has a `content.md`, a file's root directory also its front matter.
pub open spec fn canonical_child(parent: Seq<Seq<char>>, name: Seq<char>) -> Option<PathView> {
    if name == CONTENT_FILE@ {
        Some(PathView::Content(parent))
    } else if parent.len() == 0 {
        match frontmatter_named(name) {
            Some(kind) => Some(PathView::FrontMatter(kind)),
            None => None,
        }
    } else {
        None
    }
}

/// How a refused edit is reported.
pub open spec fn refusal_error(refusal: Refusal) -> VfsError {
    match refusal {
        Refusal::AlreadyExists(_) => VfsError::Exists,
        Refusal::NotEmpty => VfsError::NotEmpty,
        Refusal::NotADirectory => VfsError::NotDir,
        Refusal::Parse(_) => VfsError::Invalid,
        Refusal::WouldCreateCycle => VfsError::Invalid,
        Refusal::TooDeep => VfsError::Invalid,
    }
}

/// What an edit makes of a document: nothing, where there is nothing to edit.
pub type Edit = Result<Option<Seq<BlockView>>, VfsError>;

/// The edit with this outcome.
pub open spec fn edit_of(outcome: Result<Seq<BlockView>, Refusal>) -> Edit {
    match outcome {
        Ok(document) => Ok(Some(document)),
        Err(refusal) => Err(refusal_error(refusal)),
    }
}

impl FileView {
    /// The section called `name` directly below the one at `path`.
    pub open spec fn child_section(self, path: Seq<Seq<char>>, name: Seq<char>) -> Option<
        SectionView,
    > {
        match self.section(path) {
            Some(parent) => match child_index(parent.children, name) {
                Some(i) => Some(parent.children[i]),
                None => None,
            },
            None => None,
        }
    }

    /// Putting `text` in place of the own content of the section at `path`.
    pub open spec fn content_edit(self, path: Seq<Seq<char>>, text: Seq<char>) -> Edit {
        match self.section(path) {
            Some(s) => edit_of(replaced(self.document, s.start, s.end, text)),
            None => Ok(None),
        }
    }

    /// Putting `text` in place of the front matter of this kind.
    pub open spec fn frontmatter_edit(self, kind: FrontMatterKind, text: Seq<char>) -> Edit {
        match self.tree.front_matter {
            Some((found, i)) => if found == kind {
                Ok(Some(self.document.update(i, with_front_matter(self.document[i], text))))
            } else {
                Ok(None)
            },
            None => Ok(None),
        }
    }

    /// Putting `text` in place of the file at `path`.
    pub open spec fn file_edit(self, path: PathView, text: Seq<char>) -> Edit {
        match path {
            PathView::Content(p) => self.content_edit(p, text),
            PathView::FrontMatter(kind) => self.frontmatter_edit(kind, text),
            PathView::Dir(_) => Err(VfsError::IsDir),
        }
    }

    /// Adding a subheading to the section at `path`.
    pub open spec fn mkdir_edit(self, path: Seq<Seq<char>>, name: Seq<char>) -> Edit {
        match self.section(path) {
            Some(parent) => edit_of(inserted(self.document, parent, name)),
            None => Err(VfsError::NotFound),
        }
    }

    /// Removing a subheading of the section at `path`.
    pub open spec fn rmdir_edit(self, path: Seq<Seq<char>>, name: Seq<char>) -> Edit {
        match self.child_section(path, name) {
            Some(section) => edit_of(removed(self.document, section)),
            None => Err(VfsError::NotFound),
        }
    }

    /// Renaming a subheading of the section at `path`.
    pub open spec fn rename_edit(
        self,
        path: Seq<Seq<char>>,
        name: Seq<char>,
        new_name: Seq<char>,
    ) -> Edit {
        match self.child_section(path, name) {
            Some(section) => edit_of(renamed(self.document, section, new_name)),
            None => Err(VfsError::NotFound),
        }
    }

    /// Moving a subheading of the section at `path` below the section at `new_path`.
    pub open spec fn move_edit(
        self,
        path: Seq<Seq<char>>,
        name: Seq<char>,
        new_path: Seq<Seq<char>>,
        new_name: Seq<char>,
    ) -> Edit {
        match (self.child_section(path, name), self.section(new_path)) {
            (Some(section), Some(parent)) => edit_of(
                reparented(self.document, section, parent, new_name),
            ),
            _ => Err(VfsError::NotFound),
        }
    }

    /// The entries for the first `n` of `children`, the subsections at `path`.
    pub open spec fn child_entries(
        self,
        path: Seq<Seq<char>>,
        children: Seq<SectionView>,
        n: nat,
        now: Timestamp,
    ) -> Seq<DirEntryView>
        decreases n,
    {
        if n == 0 {
            Seq::empty()
        } else {
            let before = self.child_entries(path, children, (n - 1) as nat, now);
            let name = children[n - 1].name;
            match self.inodes.index.inos.get(PathView::Dir(path.push(name))) {
                Some(ino) => before.push(DirEntryView { ino, name, attr: dir_attr(ino, now) }),
                None => before,
            }
        }
    }

    /// The entry for `content.md` in the directory at `path`, whose own number is `dir`.
    pub open spec fn content_entry(self, dir: Ino, path: Seq<Seq<char>>, now: Timestamp) -> DirEntryView {
        let ino = match self.inodes.index.inos.get(PathView::Content(path)) {
            Some(ino) => ino,
            None => dir,
        };
        DirEntryView {
            ino,
            name: CONTENT_FILE@,
            attr: file_attr(ino, self.section_bytes(path).len(), now),
        }
    }

    /// The entry for the front matter, in a file's root directory.
    pub open spec fn frontmatter_entries(self, path: Seq<Seq<char>>, now: Timestamp) -> Seq<
        DirEntryView,
    > {
        match self.tree.front_matter {
            Some((kind, _)) => match self.inodes.index.inos.get(PathView::FrontMatter(kind)) {
                Some(ino) => if path.len() == 0 {
                    seq![
                        DirEntryView {
                            ino,
                            name: kind.spec_file_name(),
                            attr: file_attr(ino, self.frontmatter_bytes(kind).len(), now),
                        },
                    ]
                } else {
                    Seq::empty()
                },
                None => Seq::empty(),
            },
            None => Seq::empty(),
        }
    }

    /// All entries of the directory at `path`, whose own number is `dir` and whose section is
    /// `section`.
    pub open spec fn entries(
        self,
        dir: Ino,
        path: Seq<Seq<char>>,
        section: SectionView,
        now: Timestamp,
    ) -> Seq<DirEntryView> {
        seq![self.content_entry(dir, path, now)] + self.frontmatter_entries(path, now)
            + self.child_entries(path, section.children, section.children.len(), now)
    }
}

/// The entries of a directory above the files.
pub open spec fn super_entries(children: Seq<(Seq<char>, Ino)>, now: Timestamp) -> Seq<DirEntryView> {
    Seq::new(
        children.len(),
        |i: int|
            DirEntryView {
                ino: children[i].1,
                name: children[i].0,
                attr: dir_attr(children[i].1, now),
            },
    )
}

/// The index of the first entry with the number `ino`.
pub open spec fn entry_index(entries: Seq<DirEntryView>, ino: Ino) -> Option<int>
    decreases entries.len(),
{
    if entries.len() == 0 {
        None
    } else if entries[0].ino == ino {
        Some(0)
    } else {
        match entry_index(entries.drop_first(), ino) {
            Some(i) => Some(i + 1),
            None => None,
        }
    }
}

/// Where the page behind the entry with the number `start_after` begins; 0 stands for the start.
pub open spec fn page_start(entries: Seq<DirEntryView>, start_after: Ino) -> int {
    if start_after == 0 {
        0
    } else {
        match entry_index(entries, start_after) {
            Some(i) => i + 1,
            None => entries.len() as int,
        }
    }
}

/// The page of at most `max` entries, but of at least one, behind the entry with the number
/// `start_after`, and whether it is the last one.
pub open spec fn page(entries: Seq<DirEntryView>, start_after: Ino, max: nat) -> (
    Seq<DirEntryView>,
    bool,
) {
    let start = page_start(entries, start_after);
    let rest = entries.skip(start);
    let size = if max > 1 {
        max
    } else {
        1
    };
    if rest.len() <= size {
        (rest, true)
    } else {
        (rest.take(size as int), false)
    }
}

/// Who owns which number, once the numbers of `file` are no longer `before` but `after`.
pub open spec fn reowned(
    owner: Map<Ino, usize>,
    before: Set<Ino>,
    after: Set<Ino>,
    file: usize,
) -> Map<Ino, usize> {
    Map::new(
        |ino: Ino| after.contains(ino) || (owner.contains_key(ino) && !before.contains(ino)),
        |ino: Ino|
            if after.contains(ino) {
                file
            } else {
                owner[ino]
            },
    )
}

/// The directory called `raw_name` below `parent`, made if it is not there: all directories, the
/// next free number, and its number.
pub open spec fn super_dir_below(
    dirs: Map<Ino, SuperView>,
    next: Ino,
    parent: Ino,
    raw_name: Seq<char>,
) -> (Map<Ino, SuperView>, Ino, Ino) {
    let existing = child_ino(dirs[parent].children, raw_name);
    if existing is Some && dirs.contains_key(existing->0) {
        (dirs, next, existing->0)
    } else {
        let made = dirs.insert(next, empty_dir(parent));
        (
            made.insert(parent, with_child(made[parent], raw_name, next)),
            next_ino_after(next),
            next,
        )
    }
}

/// The directory that is reached from the root by `names`, made as far as it is not there.
pub open spec fn super_dir_at(dirs: Map<Ino, SuperView>, next: Ino, names: Seq<Seq<char>>) -> (
    Map<Ino, SuperView>,
    Ino,
    Ino,
)
    decreases names.len(),
{
    if names.len() == 0 {
        (dirs, next, ROOT_INO)
    } else {
        let (dirs1, next1, parent) = super_dir_at(dirs, next, names.drop_last());
        super_dir_below(dirs1, next1, parent, names.last())
    }
}

impl FsView {
    /// What holds of every mount: each file's tree is that of its document and has its numbers,
    /// nothing is hidden where writing is allowed, owners are mounted files, and there is a root.
    pub open spec fn wf(self) -> bool {
        &&& forall|i: int|
            0 <= i < self.files.len() ==> (#[trigger] self.files[i]).current() && in_step(
                self.files[i].inodes,
                self.files[i].tree,
            )
        &&& self.next > 0
        &&& !self.readonly ==> forall|i: int|
            0 <= i < self.files.len() ==> (#[trigger] self.files[i]).shown is None
        &&& forall|ino: Ino|
            self.owner.contains_key(ino) ==> (#[trigger] self.owner[ino]) < self.files.len()
        &&& self.dirs.contains_key(ROOT_INO)
    }

    /// The entry of a file that has the number `ino`.
    pub open spec fn path_for_ino(self, ino: Ino) -> Option<(usize, PathView)> {
        match self.owner.get(ino) {
            Some(file) => match self.files[file as int].inodes.index.paths.get(ino) {
                Some(path) => Some((file, path)),
                None => None,
            },
            None => None,
        }
    }

    /// The directory of a file that has the number `ino`.
    pub open spec fn dir_path(self, ino: Ino) -> Option<(usize, Seq<Seq<char>>)> {
        match self.path_for_ino(ino) {
            Some((file, PathView::Dir(path))) => Some((file, path)),
            _ => None,
        }
    }

    /// The number of the entry `name` in the directory `parent`.
    pub open spec fn lookup(self, parent: Ino, name: Seq<char>) -> Result<Ino, VfsError> {
        if self.dirs.contains_key(parent) {
            match child_ino(self.dirs[parent].children, name) {
                Some(ino) => Ok(ino),
                None => Err(VfsError::NotFound),
            }
        } else {
            match self.dir_path(parent) {
                None => Err(VfsError::NotDir),
                Some((file, path)) => {
                    let f = self.files[file as int];
                    let child = match canonical_child(path, name) {
                        Some(p) => Some(p),
                        None => if f.child_section(path, name) is Some {
                            Some(PathView::Dir(path.push(name)))
                        } else {
                            None
                        },
                    };
                    match child {
                        Some(p) => match f.inodes.index.inos.get(p) {
                            Some(ino) => Ok(ino),
                            None => Err(VfsError::NotFound),
                        },
                        None => Err(VfsError::NotFound),
                    }
                },
            }
        }
    }

    /// The directory above the directory `ino`.
    pub open spec fn parent_of(self, ino: Ino) -> Result<Ino, VfsError> {
        if self.dirs.contains_key(ino) {
            Ok(self.dirs[ino].parent)
        } else {
            match self.dir_path(ino) {
                None => Err(VfsError::NotDir),
                Some((file, path)) => {
                    let parent = if path.len() == 0 {
                        self.file_parents.get(file as u64)
                    } else {
                        self.files[file as int].inodes.index.inos.get(
                            PathView::Dir(path.drop_last()),
                        )
                    };
                    match parent {
                        Some(p) => Ok(p),
                        None => Ok(ROOT_INO),
                    }
                },
            }
        }
    }

    /// The attributes of the entry `ino`.
    pub open spec fn getattr(self, ino: Ino, now: Timestamp) -> Result<FileAttr, VfsError> {
        if self.scratch.contains_key(ino) {
            Ok(file_attr(ino, self.scratch[ino].len(), now))
        } else if self.dirs.contains_key(ino) {
            Ok(dir_attr(ino, now))
        } else {
            match self.path_for_ino(ino) {
                Some((file, path)) => Ok(self.files[file as int].attr_for(ino, path, now)),
                None => Err(VfsError::NotFound),
            }
        }
    }

    /// All bytes of the file `ino`.
    pub open spec fn contents(self, ino: Ino) -> Result<Seq<u8>, VfsError> {
        if self.scratch.contains_key(ino) {
            Ok(self.scratch[ino])
        } else {
            match self.path_for_ino(ino) {
                Some((file, path)) => self.files[file as int].bytes_for(path),
                None => Err(VfsError::NotFound),
            }
        }
    }

    /// The bytes of the file `ino` from `offset` on, at most `count` of them, and whether the end is
    /// reached.
    pub open spec fn read(self, ino: Ino, offset: int, count: int) -> Result<
        (Seq<u8>, bool),
        VfsError,
    > {
        match self.contents(ino) {
            Ok(bytes) => Ok(window(bytes, offset, count)),
            Err(e) => Err(e),
        }
    }

    /// All entries of the directory `ino`.
    pub open spec fn entries(self, ino: Ino, now: Timestamp) -> Result<Seq<DirEntryView>, VfsError> {
        if self.dirs.contains_key(ino) {
            Ok(super_entries(self.dirs[ino].children, now))
        } else {
            match self.dir_path(ino) {
                None => Err(VfsError::NotDir),
                Some((file, path)) => match self.files[file as int].section(path) {
                    None => Err(VfsError::NotFound),
                    Some(section) => Ok(
                        self.files[file as int].entries(ino, path, section, now),
                    ),
                },
            }
        }
    }

    /// A page of the entries of the directory `ino`.
    pub open spec fn readdir(self, ino: Ino, start_after: Ino, max: nat, now: Timestamp) -> Result<
        (Seq<DirEntryView>, bool),
        VfsError,
    > {
        match self.entries(ino, now) {
            Ok(entries) => Ok(page(entries, start_after, max)),
            Err(e) => Err(e),
        }
    }

    /// The mount with another document in `file`: its tree and its numbers follow.
    pub open spec fn rebuilt(self, file: usize, document: Seq<BlockView>) -> FsView {
        let f = self.files[file as int];
        let tree = tree_of(document);
        let (inodes, next) = synced(f.inodes, self.next, tree);
        FsView {
            files: self.files.update(
                file as int,
                FileView { document, tree, inodes, ..f },
            ),
            owner: reowned(
                self.owner,
                f.inodes.index.paths.dom(),
                inodes.index.paths.dom(),
                file,
            ),
            next,
            ..self
        }
    }

    /// The mount after `edit` of `file`, and whether the file has to be brought to disk.
    pub open spec fn applied(self, file: usize, edit: Edit) -> (FsView, Result<bool, VfsError>) {
        match edit {
            Ok(Some(document)) => (self.rebuilt(file, document), Ok(true)),
            Ok(None) => (self, Ok(false)),
            Err(e) => (self, Err(e)),
        }
    }

    /// The mount without the buffer under `name` in the directory `from`.
    pub open spec fn forgotten(self, from: Ino, name: Seq<char>) -> FsView {
        if self.names.contains_key((from, name)) {
            FsView {
                names: self.names.remove((from, name)),
                scratch: self.scratch.remove(self.names[(from, name)]),
                ..self
            }
        } else {
            self
        }
    }

    /// What is left of a request once `file` is on disk.
    pub open spec fn resumed(self, file: usize, next: NextView, now: Timestamp) -> (
        FsView,
        StepView,
    ) {
        match next {
            NextView::Attr { ino, entry } => (
                self,
                StepView::Finished(
                    Ok(Reply::Attr(self.files[file as int].attr_for(ino, entry, now))),
                ),
            ),
            NextView::Stat { ino } => (self, self.stat_step(ino, now)),
            NextView::NewDir { path } => (
                self,
                match self.files[file as int].inodes.index.inos.get(PathView::Dir(path)) {
                    Some(ino) => StepView::Finished(Ok(Reply::Entry(ino, dir_attr(ino, now)))),
                    None => StepView::Finished(Err(VfsError::Io)),
                },
            ),
            NextView::Finish => (self, StepView::Finished(Ok(Reply::Done))),
            NextView::ClearSource { path, from, name } => {
                let (after, saving) = self.applied(
                    file,
                    self.files[file as int].content_edit(path, Seq::empty()),
                );
                match saving {
                    Ok(true) => (
                        after,
                        StepView::Save { file, next: NextView::Forget { from, name } },
                    ),
                    Ok(false) => (
                        after.forgotten(from, name),
                        StepView::Finished(Ok(Reply::Done)),
                    ),
                    Err(e) => (after, StepView::Finished(Err(e))),
                }
            },
            NextView::Forget { from, name } => (
                self.forgotten(from, name),
                StepView::Finished(Ok(Reply::Done)),
            ),
        }
    }

    /// The answer with the attributes of the entry `ino`.
    pub open spec fn stat_step(self, ino: Ino, now: Timestamp) -> StepView {
        match self.getattr(ino, now) {
            Ok(attr) => StepView::Finished(Ok(Reply::Attr(attr))),
            Err(e) => StepView::Finished(Err(e)),
        }
    }

    /// Editing `file` and going on with `next`.
    pub open spec fn edited(self, file: usize, edit: Edit, next: NextView, now: Timestamp) -> (
        FsView,
        StepView,
    ) {
        let (after, saving) = self.applied(file, edit);
        match saving {
            Ok(true) => (after, StepView::Save { file, next }),
            Ok(false) => after.resumed(file, next, now),
            Err(e) => (after, StepView::Finished(Err(e))),
        }
    }

    /// The mount, unchanged, and an error.
    pub open spec fn refused(self, e: VfsError) -> (FsView, StepView) {
        (self, StepView::Finished(Err(e)))
    }

    /// Emptying the file `ino`.
    pub open spec fn truncate(self, ino: Ino, now: Timestamp) -> (FsView, StepView) {
        if self.readonly {
            self.refused(VfsError::ReadOnly)
        } else if self.scratch.contains_key(ino) {
            let after = FsView { scratch: self.scratch.insert(ino, Seq::empty()), ..self };
            (after, after.stat_step(ino, now))
        } else {
            match self.path_for_ino(ino) {
                Some((file, path)) => self.edited(
                    file,
                    self.files[file as int].file_edit(path, Seq::empty()),
                    NextView::Stat { ino },
                    now,
                ),
                None => (self, self.stat_step(ino, now)),
            }
        }
    }

    /// Setting the size of the file `ino`: only emptying it has an effect.
    pub open spec fn set_size(self, ino: Ino, size: Option<u64>, now: Timestamp) -> (
        FsView,
        StepView,
    ) {
        if size == Some(0u64) {
            self.truncate(ino, now)
        } else {
            (self, self.stat_step(ino, now))
        }
    }

    /// Writing `data` into the file `ino` at `offset`.
    pub open spec fn write(self, ino: Ino, offset: int, data: Seq<u8>, now: Timestamp) -> (
        FsView,
        StepView,
    ) {
        if self.readonly {
            self.refused(VfsError::ReadOnly)
        } else if self.scratch.contains_key(ino) {
            let buf = spliced(self.scratch[ino], offset, data);
            (
                FsView { scratch: self.scratch.insert(ino, buf), ..self },
                StepView::Finished(Ok(Reply::Attr(file_attr(ino, buf.len(), now)))),
            )
        } else {
            match self.path_for_ino(ino) {
                None => self.refused(VfsError::NotFound),
                Some((file, path)) => {
                    let f = self.files[file as int];
                    match f.bytes_for(path) {
                        Err(e) => self.refused(e),
                        Ok(bytes) => self.edited(
                            file,
                            f.file_edit(path, text_of(spliced(bytes, offset, data))),
                            NextView::Attr { ino, entry: path },
                            now,
                        ),
                    }
                },
            }
        }
    }

    /// The mount with a new, empty buffer under `name` in the directory `parent`.
    pub open spec fn with_buffer(self, parent: Ino, name: Seq<char>) -> FsView {
        FsView {
            next: next_ino_after(self.next),
            scratch: self.scratch.insert(self.next, Seq::empty()),
            names: self.names.insert((parent, name), self.next),
            ..self
        }
    }

    /// Creating the file `name` in the directory `parent`, or opening it if it is there.
    pub open spec fn create(self, parent: Ino, name: Seq<char>, now: Timestamp) -> (
        FsView,
        Result<(Ino, FileAttr), VfsError>,
    ) {
        if self.readonly {
            (self, Err(VfsError::ReadOnly))
        } else {
            match self.dir_path(parent) {
                None => (self, Err(VfsError::NotFound)),
                Some((file, path)) => {
                    let f = self.files[file as int];
                    match canonical_child(path, name) {
                        Some(p) => match f.inodes.index.inos.get(p) {
                            Some(ino) => (self, Ok((ino, f.attr_for(ino, p, now)))),
                            None => (self, Err(VfsError::Io)),
                        },
                        None => match self.names.get((parent, name)) {
                            Some(ino) => {
                                let len = match self.scratch.get(ino) {
                                    Some(buf) => buf.len(),
                                    None => 0,
                                };
                                (self, Ok((ino, file_attr(ino, len, now))))
                            },
                            None => (
                                self.with_buffer(parent, name),
                                Ok((self.next, file_attr(self.next, 0, now))),
                            ),
                        },
                    }
                },
            }
        }
    }

    /// Creating the file `name` in the directory `parent`, which must not be there.
    pub open spec fn create_exclusive(self, parent: Ino, name: Seq<char>) -> (
        FsView,
        Result<Ino, VfsError>,
    ) {
        if self.readonly {
            (self, Err(VfsError::ReadOnly))
        } else if self.dirs.contains_key(parent) {
            if child_ino(self.dirs[parent].children, name) is Some {
                (self, Err(VfsError::Exists))
            } else {
                (self.with_buffer(parent, name), Ok(self.next))
            }
        } else {
            match self.dir_path(parent) {
                None => (self, Err(VfsError::NotFound)),
                Some((file, path)) => if canonical_child(path, name) is Some
                    || self.files[file as int].child_section(path, name) is Some
                    || self.names.contains_key((parent, name)) {
                    (self, Err(VfsError::Exists))
                } else {
                    (self.with_buffer(parent, name), Ok(self.next))
                },
            }
        }
    }

    /// Making the directory `name` in the directory `parent`.
    pub open spec fn mkdir(self, parent: Ino, name: Seq<char>, now: Timestamp) -> (
        FsView,
        StepView,
    ) {
        if self.readonly {
            self.refused(VfsError::ReadOnly)
        } else if self.dirs.contains_key(parent) {
            self.refused(VfsError::PermissionDenied)
        } else {
            match self.dir_path(parent) {
                None => self.refused(VfsError::NotFound),
                Some((file, path)) => self.edited(
                    file,
                    self.files[file as int].mkdir_edit(path, name),
                    NextView::NewDir { path: path.push(name) },
                    now,
                ),
            }
        }
    }

    /// Removing the entry `name` of the directory `parent`. The files that stand for part of the
    /// document are emptied.
    pub open spec fn remove(self, parent: Ino, name: Seq<char>, now: Timestamp) -> (
        FsView,
        StepView,
    ) {
        if self.readonly {
            self.refused(VfsError::ReadOnly)
        } else if self.names.contains_key((parent, name)) {
            (self.forgotten(parent, name), StepView::Finished(Ok(Reply::Done)))
        } else if self.dirs.contains_key(parent) {
            self.refused(VfsError::PermissionDenied)
        } else {
            match self.dir_path(parent) {
                None => self.refused(VfsError::NotFound),
                Some((file, path)) => {
                    let f = self.files[file as int];
                    let edit = match canonical_child(path, name) {
                        Some(p) => f.file_edit(p, Seq::empty()),
                        None => f.rmdir_edit(path, name),
                    };
                    self.edited(file, edit, NextView::Finish, now)
                },
            }
        }
    }

    /// Renaming the entry `from_name` of the directory `from` to `to_name` in the directory `to`.
    pub open spec fn rename(
        self,
        from: Ino,
        from_name: Seq<char>,
        to: Ino,
        to_name: Seq<char>,
        now: Timestamp,
    ) -> (FsView, StepView) {
        if self.readonly {
            self.refused(VfsError::ReadOnly)
        } else {
            match self.dir_path(to) {
                None => self.refused(VfsError::NotFound),
                Some((file, path)) => match canonical_child(path, to_name) {
                    Some(p) => self.adopted(from, from_name, file, p, now),
                    None => self.moved(from, from_name, to, to_name, file, path, now),
                },
            }
        }
    }

    /// Adopting the entry `from_name` of the directory `from` as the content of the file at `path`. A
    /// `content.md` that is renamed to itself stays as it is.
    pub open spec fn adopted(
        self,
        from: Ino,
        from_name: Seq<char>,
        file: usize,
        path: PathView,
        now: Timestamp,
    ) -> (FsView, StepView) {
        let f = self.files[file as int];
        if self.names.contains_key((from, from_name)) {
            match self.scratch.get(self.names[(from, from_name)]) {
                None => self.refused(VfsError::NotFound),
                Some(bytes) => self.edited(
                    file,
                    f.file_edit(path, text_of(bytes)),
                    NextView::Forget { from, name: from_name },
                    now,
                ),
            }
        } else if from_name == CONTENT_FILE@ {
            match self.dir_path(from) {
                None => self.refused(VfsError::NotFound),
                Some((source_file, source_path)) => if source_file != file {
                    self.refused(VfsError::Unsupported)
                } else if path == PathView::Content(source_path) {
                    (self, StepView::Finished(Ok(Reply::Done)))
                } else {
                    self.edited(
                        file,
                        f.file_edit(path, text_of(f.section_bytes(source_path))),
                        NextView::ClearSource { path: source_path, from, name: from_name },
                        now,
                    )
                },
            }
        } else {
            self.refused(VfsError::NotFound)
        }
    }

    /// Moving the entry `from_name` of the directory `from` to the directory `to`, which is at
    /// `path` in `file`.
    pub open spec fn moved(
        self,
        from: Ino,
        from_name: Seq<char>,
        to: Ino,
        to_name: Seq<char>,
        file: usize,
        path: Seq<Seq<char>>,
        now: Timestamp,
    ) -> (FsView, StepView) {
        let f = self.files[file as int];
        if self.names.contains_key((from, from_name)) {
            let ino = self.names[(from, from_name)];
            let names = self.names.remove((from, from_name)).insert((to, to_name), ino);
            (FsView { names, ..self }, StepView::Finished(Ok(Reply::Done)))
        } else if from == to {
            self.edited(file, f.rename_edit(path, from_name, to_name), NextView::Finish, now)
        } else {
            match self.dir_path(from) {
                None => self.refused(VfsError::NotFound),
                Some((source_file, source_path)) => if source_file != file {
                    self.refused(VfsError::Unsupported)
                } else {
                    self.edited(
                        file,
                        f.move_edit(source_path, from_name, path, to_name),
                        NextView::Finish,
                        now,
                    )
                },
            }
        }
    }

    /// The mount once `text` was written to disk for `file`, which was then last changed at `mtime`.
    pub open spec fn saved(self, file: usize, text: Seq<char>, mtime: Option<Timestamp>) -> FsView {
        FsView {
            files: self.files.update(
                file as int,
                FileView { persisted: text, known_mtime: mtime, ..self.files[file as int] },
            ),
            ..self
        }
    }

    /// The mount with one more file. A file that is already mounted is left alone.
    pub open spec fn with_file(self, source: SourceView) -> FsView {
        if source.mount_path.len() == 0 || self.mounted.contains(source.path) {
            self
        } else {
            let fs = with_unplaced(self, source);
            let root = fs.files.last().inodes.shadow.dir;
            let (dirs, next, parent) = super_dir_at(
                fs.dirs,
                fs.next,
                source.mount_path.drop_last(),
            );
            FsView {
                dirs: dirs.insert(
                    parent,
                    with_child(dirs[parent], source.mount_path.last(), root),
                ),
                file_parents: fs.file_parents.insert(self.files.len() as u64, parent),
                next,
                ..fs
            }
        }
    }
}

/// The mount with one more file that is not an entry of a directory yet.
pub open spec fn with_unplaced(fs: FsView, source: SourceView) -> FsView {
    let (f, next) = opened(source, fs.next);
    FsView {
        files: fs.files.push(f),
        owner: reowned(
            fs.owner,
            Set::empty(),
            f.inodes.index.paths.dom(),
            fs.files.len() as usize,
        ),
        next,
        mounted: fs.mounted.insert(source.path),
        ..fs
    }
}

/// The mount with all files of `sources`, before they are entries of directories.
pub open spec fn with_all_unplaced(fs: FsView, sources: Seq<SourceView>) -> FsView
    decreases sources.len(),
{
    if sources.len() == 0 {
        fs
    } else {
        with_unplaced(with_all_unplaced(fs, sources.drop_last()), sources.last())
    }
}

/// A mount without files.
pub open spec fn bare_mount(readonly: bool, allow_other: bool, uid: u32, gid: u32) -> FsView {
    FsView {
        files: Seq::empty(),
        dirs: Map::empty(),
        file_parents: Map::empty(),
        owner: Map::empty(),
        next: (ROOT_INO + 1) as u64,
        scratch: Map::empty(),
        names: Map::empty(),
        mounted: Set::empty(),
        readonly,
        allow_other,
        uid,
        gid,
    }
}

/// Where each of `sources` goes in the mount.
pub open spec fn leaves_of(sources: Seq<SourceView>) -> Seq<(usize, Seq<Seq<char>>)> {
    Seq::new(sources.len(), |i: int| (i as usize, sources[i].mount_path))
}

/// The numbers of the files' own directories.
pub open spec fn roots_of(files: Seq<FileView>) -> Seq<Ino> {
    Seq::new(files.len(), |i: int| files[i].inodes.shadow.dir)
}

/// A mount of `sources`. It is read-only also where sections of a file are hidden.
pub open spec fn mount_of(
    sources: Seq<SourceView>,
    readonly: bool,
    allow_other: bool,
    uid: u32,
    gid: u32,
) -> FsView {
    let hidden = exists|i: int| 0 <= i < sources.len() && (#[trigger] sources[i]).shown is Some;
    let fs = with_all_unplaced(bare_mount(readonly || hidden, allow_other, uid, gid), sources);
    let layout = laid_out(
        Layout {
            children: Seq::empty(),
            seen: Set::empty(),
            dirs: Map::empty(),
            file_parents: Map::empty(),
            next: fs.next,
        },
        leaves_of(sources),
        ROOT_INO,
        roots_of(fs.files),
    );
    FsView {
        dirs: layout.dirs.insert(
            ROOT_INO,
            SuperView { parent: ROOT_INO, children: layout.children, seen: layout.seen },
        ),
        file_parents: layout.file_parents,
        next: layout.next,
        ..fs
    }
}

} // verus!
