//! One mounted file.
use vstd::prelude::*;
use vstd::utf8::encode_utf8;

use crate::block::{parsed, rendered, BlockView};
use crate::document::{
    filtered_tree, front_matter_text, matches_within, pruned, pruned_first, Document,
    MutationError, Refusal,
};
use crate::inode::{
    empty_table, synced, InodeTable, MountPath, PathView, TableView,
};
use crate::model::views;
use crate::outline::{lemma_placed, occurs};
use crate::section::{
    body_start, child_index, find_below, front_matter_of, lemma_next_heading, tree_of,
    FrontMatterKind, Section, SectionTree, SectionView, TreeView,
};
use crate::vfs::{FileAttr, FileKind, Ino, Timestamp, VfsError};

verus! {

/// A Markdown file that is to be mounted.
pub struct Source {
    /// The bytes of its path on disk.
    pub path: Vec<u8>,
    /// Where it goes in the mount.
    pub mount_path: Vec<String>,
    pub text: String,
    pub mtime: Option<Timestamp>,
    pub document: Document,
    /// For each block whether it is a heading to show; all are shown where this is `None`.
    pub shown: Option<Vec<bool>>,
}

/// The mathematical value of a [`Source`].
pub struct SourceView {
    pub path: Seq<u8>,
    pub mount_path: Seq<Seq<char>>,
    pub text: Seq<char>,
    pub mtime: Option<Timestamp>,
    pub document: Seq<BlockView>,
    pub shown: Option<Seq<bool>>,
}

/// The elements of an optional list.
pub open spec fn flags(shown: Option<Vec<bool>>) -> Option<Seq<bool>> {
    match shown {
        Some(keep) => Some(keep@),
        None => None,
    }
}

impl View for Source {
    type V = SourceView;

    open spec fn view(&self) -> SourceView {
        SourceView {
            path: self.path@,
            mount_path: views(self.mount_path@),
            text: self.text@,
            mtime: self.mtime,
            document: self.document@,
            shown: flags(self.shown),
        }
    }
}

impl Source {
    /// Parses a file that was read from disk. All of its sections are shown.
    pub fn open(
        path: Vec<u8>,
        mount_path: Vec<String>,
        text: String,
        mtime: Option<Timestamp>,
    ) -> (r: Result<Source, MutationError>)
        ensures
            match parsed(text@) {
                Ok(document) => r is Ok && r->Ok_0@ == (SourceView {
                    path: path@,
                    mount_path: views(mount_path@),
                    text: text@,
                    mtime,
                    document,
                    shown: None,
                }),
                Err(message) => r is Err && r->Err_0@ == Refusal::Parse(message),
            },
    {
        match Document::parse(&text) {
            Ok(document) => Ok(Source { path, mount_path, text, mtime, document, shown: None }),
            Err(e) => Err(e),
        }
    }
}

/// The directory tree that is shown of a document.
pub open spec fn shown_tree(bs: Seq<BlockView>, shown: Option<Seq<bool>>) -> TreeView {
    match shown {
        Some(keep) => filtered_tree(bs, keep),
        None => tree_of(bs),
    }
}

/// A mounted file.
pub struct FileMount {
    pub document: Document,
    pub tree: SectionTree,
    pub inodes: InodeTable,
    pub source_path: Vec<u8>,
    pub shown: Option<Vec<bool>>,
    /// The text that is on disk, as far as the mount knows.
    pub last_persisted: String,
    /// When the file on disk was last changed, as far as the mount knows.
    pub last_known_mtime: Option<Timestamp>,
}

/// The mathematical value of a [`FileMount`].
pub struct FileView {
    pub document: Seq<BlockView>,
    pub tree: TreeView,
    pub inodes: TableView,
    pub source_path: Seq<u8>,
    pub shown: Option<Seq<bool>>,
    pub persisted: Seq<char>,
    pub known_mtime: Option<Timestamp>,
}

impl View for FileMount {
    type V = FileView;

    open spec fn view(&self) -> FileView {
        FileView {
            document: self.document@,
            tree: self.tree@,
            inodes: self.inodes@,
            source_path: self.source_path@,
            shown: flags(self.shown),
            persisted: self.last_persisted@,
            known_mtime: self.last_known_mtime,
        }
    }
}

/// A freshly mounted file, and the next free number.
pub open spec fn opened(source: SourceView, next: Ino) -> (FileView, Ino) {
    let tree = shown_tree(source.document, source.shown);
    let (inodes, after) = synced(empty_table(), next, tree);
    (
        FileView {
            document: source.document,
            tree,
            inodes,
            source_path: source.path,
            shown: source.shown,
            persisted: source.text,
            known_mtime: source.mtime,
        },
        after,
    )
}

impl FileView {
    /// Whether the tree is that of the document.
    pub open spec fn current(self) -> bool {
        self.tree == shown_tree(self.document, self.shown)
    }

    /// The section at `path`.
    pub open spec fn section(self, path: Seq<Seq<char>>) -> Option<SectionView> {
        find_below(self.tree.root, path)
    }

    /// The bytes of the `content.md` at `path`; empty if there is no such section.
    pub open spec fn section_bytes(self, path: Seq<Seq<char>>) -> Seq<u8> {
        match self.section(path) {
            Some(s) => encode_utf8(rendered(self.document.subrange(s.start, s.end))),
            None => Seq::empty(),
        }
    }

    /// The bytes of the front matter file; empty if the front matter is not of this kind.
    pub open spec fn frontmatter_bytes(self, kind: FrontMatterKind) -> Seq<u8> {
        match self.tree.front_matter {
            Some((found, i)) => if found == kind {
                encode_utf8(front_matter_text(self.document[i]))
            } else {
                Seq::empty()
            },
            None => Seq::empty(),
        }
    }

    /// The bytes of a file.
    pub open spec fn bytes_for(self, path: PathView) -> Result<Seq<u8>, VfsError> {
        match path {
            PathView::Content(p) => Ok(self.section_bytes(p)),
            PathView::FrontMatter(kind) => Ok(self.frontmatter_bytes(kind)),
            PathView::Dir(_) => Err(VfsError::IsDir),
        }
    }

    /// The attributes of an entry.
    pub open spec fn attr_for(self, ino: Ino, path: PathView, now: Timestamp) -> FileAttr {
        match path {
            PathView::Dir(_) => dir_attr(ino, now),
            PathView::Content(p) => file_attr(ino, self.section_bytes(p).len(), now),
            PathView::FrontMatter(kind) => file_attr(ino, self.frontmatter_bytes(kind).len(), now),
        }
    }
}

/// The attributes of a directory.
pub open spec fn dir_attr(ino: Ino, now: Timestamp) -> FileAttr {
    FileAttr { ino, kind: FileKind::Dir, size: 0, mtime: now }
}

/// The attributes of a file of `len` bytes.
pub open spec fn file_attr(ino: Ino, len: nat, now: Timestamp) -> FileAttr {
    FileAttr { ino, kind: FileKind::File, size: len as u64, mtime: now }
}

/// What is found below a section occurs in it.
pub proof fn lemma_found_occurs(section: SectionView, path: Seq<Seq<char>>)
    ensures
        find_below(section, path) is Some ==> occurs(section, find_below(section, path)->0),
    decreases path.len(),
{
    if path.len() > 0 {
        lemma_child_index(section.children, path[0]);
        if let Some(i) = child_index(section.children, path[0]) {
            lemma_found_occurs(section.children[i], path.drop_first());
        }
    }
}

/// [`child_index`] finds the first child of that name.
pub proof fn lemma_child_index(children: Seq<SectionView>, name: Seq<char>)
    ensures
        match child_index(children, name) {
            Some(i) => 0 <= i < children.len() && children[i].name == name && forall|j: int|
                0 <= j < i ==> (#[trigger] children[j]).name != name,
            None => forall|j: int| 0 <= j < children.len() ==> (#[trigger] children[j]).name != name,
        },
    decreases children.len(),
{
    if children.len() > 0 && children[0].name != name {
        let rest = children.drop_first();
        lemma_child_index(rest, name);
        match child_index(rest, name) {
            Some(i) => {
                assert(children[i + 1] == rest[i]);
                assert forall|j: int| 0 <= j < i + 1 implies (#[trigger] children[j]).name
                    != name by {
                    if j > 0 {
                        assert(children[j] == rest[j - 1]);
                    }
                }
            },
            None => {
                assert forall|j: int| 0 <= j < children.len() implies (#[trigger] children[j]).name
                    != name by {
                    if j > 0 {
                        assert(children[j] == rest[j - 1]);
                    }
                }
            },
        }
    }
}

/// What occurs in a pruned section is a pruned section of the whole.
pub proof fn lemma_pruned_occurs(s: SectionView, keep: Seq<bool>, x: SectionView)
    requires
        occurs(pruned(s, keep), x),
    ensures
        exists|y: SectionView| #[trigger] occurs(s, y) && x == pruned(y, keep),
    decreases s, s.children.len() + 1,
{
    if x == pruned(s, keep) {
        assert(occurs(s, s));
    } else {
        let p = pruned(s, keep);
        let k = choose|k: int| 0 <= k < p.children.len() && occurs(#[trigger] p.children[k], x);
        lemma_pruned_first_occurs(s, s.children.len(), keep, k, x);
    }
}

proof fn lemma_pruned_first_occurs(
    s: SectionView,
    n: nat,
    keep: Seq<bool>,
    k: int,
    x: SectionView,
)
    requires
        n <= s.children.len(),
        0 <= k < pruned_first(s, n, keep).len(),
        occurs(pruned_first(s, n, keep)[k], x),
    ensures
        exists|y: SectionView| #[trigger] occurs(s, y) && x == pruned(y, keep),
    decreases s, n,
{
    let child = s.children[n - 1];
    let before = pruned_first(s, (n - 1) as nat, keep);
    if k < before.len() {
        lemma_pruned_first_occurs(s, (n - 1) as nat, keep, k, x);
    } else {
        assert(matches_within(child, keep));
        assert(pruned_first(s, n, keep)[k] == pruned(child, keep));
        lemma_pruned_occurs(child, keep, x);
        let y = choose|y: SectionView| #[trigger] occurs(child, y) && x == pruned(y, keep);
        assert(occurs(s, y));
    }
}

/// The own content of a section lies in the document, and so does its heading.
pub open spec fn in_bounds(bs: Seq<BlockView>, s: SectionView) -> bool {
    &&& 0 <= s.start <= s.end <= bs.len()
    &&& s.heading is Some ==> 0 <= s.heading->0 < bs.len()
}

proof fn lemma_tree_in_bounds(bs: Seq<BlockView>, s: SectionView)
    requires
        occurs(tree_of(bs).root, s),
    ensures
        in_bounds(bs, s),
{
    if s == tree_of(bs).root {
        lemma_next_heading(bs, body_start(bs));
    } else {
        lemma_placed(bs, s);
    }
}

/// Every section of a mounted file lies in its document.
pub proof fn lemma_section_in_bounds(f: FileView, path: Seq<Seq<char>>)
    requires
        f.current(),
        f.section(path) is Some,
    ensures
        in_bounds(f.document, f.section(path)->0),
        f.shown is None ==> occurs(tree_of(f.document).root, f.section(path)->0),
{
    lemma_found_occurs(f.tree.root, path);
    let s = f.section(path)->0;
    match f.shown {
        None => lemma_tree_in_bounds(f.document, s),
        Some(keep) => {
            lemma_pruned_occurs(tree_of(f.document).root, keep, s);
            let y = choose|y: SectionView| #[trigger]
                occurs(tree_of(f.document).root, y) && s == pruned(y, keep);
            lemma_tree_in_bounds(f.document, y);
        },
    }
}

/// The attributes of a directory.
pub fn attr_of_dir(ino: Ino, now: Timestamp) -> (attr: FileAttr)
    ensures
        attr == dir_attr(ino, now),
{
    FileAttr { ino, kind: FileKind::Dir, size: 0, mtime: now }
}

/// The attributes of a file of `len` bytes.
pub fn attr_of_file(ino: Ino, len: usize, now: Timestamp) -> (attr: FileAttr)
    ensures
        attr == file_attr(ino, len as nat, now),
{
    FileAttr { ino, kind: FileKind::File, size: len as u64, mtime: now }
}

impl FileMount {
    /// Mounts a file.
    pub fn open(source: Source, next_ino: &mut Ino) -> (file: FileMount)
        ensures
            (file@, *final(next_ino)) == opened(source@, *old(next_ino)),
    {
        let tree = match &source.shown {
            Some(keep) => source.document.tree_keeping(keep),
            None => source.document.tree(),
        };
        let mut inodes = InodeTable::new();
        inodes.sync(next_ino, &tree);
        FileMount {
            document: source.document,
            tree,
            inodes,
            source_path: source.path,
            shown: source.shown,
            last_persisted: source.text,
            last_known_mtime: source.mtime,
        }
    }

    /// The section at `path`.
    pub fn section(&self, path: &[String]) -> (section: Option<&Section>)
        ensures
            match self@.section(views(path@)) {
                Some(s) => section is Some && section->0@ == s,
                None => section is None,
            },
    {
        self.tree.find_names(path)
    }

    /// The bytes of the `content.md` at `path`; empty if there is no such section.
    pub fn section_bytes(&self, path: &[String]) -> (bytes: Vec<u8>)
        requires
            self@.current(),
        ensures
            bytes@ == self@.section_bytes(views(path@)),
    {
        match self.section(path) {
            Some(section) => {
                proof {
                    lemma_section_in_bounds(self@, views(path@));
                }
                let range = section.own_content_range.start..section.own_content_range.end;
                self.document.render_range(range).as_str().as_bytes_vec()
            },
            None => Vec::new(),
        }
    }

    /// The bytes of the front matter file; empty if the front matter is not of this kind.
    pub fn frontmatter_bytes(&self, kind: FrontMatterKind) -> (bytes: Vec<u8>)
        requires
            self@.current(),
        ensures
            bytes@ == self@.frontmatter_bytes(kind),
    {
        match self.tree.front_matter {
            Some((found, index)) if found == kind => {
                assert(front_matter_of(self@.document) is Some);
                self.document.frontmatter_value(index).as_bytes_vec()
            },
            _ => Vec::new(),
        }
    }

    /// The bytes of a file.
    pub fn bytes_for(&self, path: &MountPath) -> (r: Result<Vec<u8>, VfsError>)
        requires
            self@.current(),
        ensures
            match self@.bytes_for(path@) {
                Ok(bytes) => r is Ok && r->Ok_0@ == bytes,
                Err(e) => r == Err::<Vec<u8>, VfsError>(e),
            },
    {
        match path {
            MountPath::Content(p) => Ok(self.section_bytes(p)),
            MountPath::FrontMatter(kind) => Ok(self.frontmatter_bytes(*kind)),
            MountPath::Dir(_) => Err(VfsError::IsDir),
        }
    }

    /// The attributes of an entry.
    pub fn attr_for(&self, ino: Ino, path: &MountPath, now: Timestamp) -> (attr: FileAttr)
        requires
            self@.current(),
        ensures
            attr == self@.attr_for(ino, path@, now),
    {
        match path {
            MountPath::Dir(_) => attr_of_dir(ino, now),
            MountPath::Content(p) => attr_of_file(ino, self.section_bytes(p).len(), now),
            MountPath::FrontMatter(kind) => attr_of_file(
                ino,
                self.frontmatter_bytes(*kind).len(),
                now,
            ),
        }
    }
}

} // verus!
