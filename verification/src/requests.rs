//! What each request is answered with, and what it does to the document.
use vstd::prelude::*;
use vstd::utf8::{decode_utf8, encode_utf8, valid_utf8};

use crate::block::{parsed, ContentView};
use crate::bytes::{lossy_text, spliced};
use crate::bytewise::{law_a_write_has_one_outcome, law_written_bytes, overwritten};
use crate::document::{front_matter_text, with_front_matter, CONTENT_FILE};
use crate::editing::lemma_children_range;
use crate::inode::{Index, PathView};
use crate::mount::{lemma_child_index, lemma_found_occurs, lemma_section_in_bounds};
use crate::naming::lemma_occurs_child;
use crate::numbering::in_step;
use crate::outline::{closed_range, lemma_placed, lemma_sections_placed, occurs};
use crate::reading::lemma_no_front_matter_below;
use crate::section::{child_index, front_matter_of, tree_of, FrontMatterKind};
use crate::shifting::{contents, law_splice_keeps_all_other_blocks};
use crate::spelling::{
    ends_subtree, gains_heading, gets_too_deep, has_child_named, is_empty_heading,
    law_inserted_heading_spells_its_title, law_moved_heading_spells_its_title,
    law_only_an_empty_heading_is_removed, law_renamed_heading_spells_its_title, moves_subtree,
    retitles,
};
use crate::state::{canonical_child, frontmatter_named, FsView, NextView, Reply, StepView};
use crate::vfs::{FileAttr, FileKind, Ino, Timestamp, VfsError};

verus! {

/// Whether a request is refused with `e`, and leaves the mount as it was.
pub open spec fn is_refused(fs: FsView, answer: (FsView, StepView), e: VfsError) -> bool {
    &&& answer.0 == fs
    &&& answer.1 == StepView::Finished(Err(e))
}

/// The text that bytes stand for is what they encode, or what is made of them where they are not
/// UTF-8.
pub open spec fn stands_for(bytes: Seq<u8>, text: Seq<char>) -> bool {
    &&& valid_utf8(bytes) ==> text == decode_utf8(bytes)
    &&& !valid_utf8(bytes) ==> text == lossy_text(bytes)
}

proof fn lemma_child_of(fs: FsView, dir: Ino, file: usize, path: Seq<Seq<char>>, name: Seq<char>)
    requires
        fs.wf(),
        !fs.readonly,
        fs.dir_path(dir) == Some((file, path)),
        fs.files[file as int].section(path) is Some,
    ensures
        ({
            let f = fs.files[file as int];
            let parent = f.section(path)->0;
            &&& file < fs.files.len()
            &&& f.shown is None
            &&& f.tree == tree_of(f.document)
            &&& occurs(tree_of(f.document).root, parent)
            &&& f.child_section(path, name) is Some <==> has_child_named(parent, name)
            &&& f.child_section(path, name) is Some ==> {
                let s = f.child_section(path, name)->0;
                &&& s.name == name
                &&& s.heading is Some
                &&& occurs(tree_of(f.document).root, s)
                &&& 0 <= s.heading->0 < f.document.len()
                &&& f.document[s.heading->0].is_heading()
                &&& ends_subtree(f.document, s.heading->0, s.subtree_end())
            }
        }),
{
    let f = fs.files[file as int];
    assert(fs.owner[dir] < fs.files.len());
    assert(f.current());
    let bs = f.document;
    let root = tree_of(bs).root;
    let parent = f.section(path)->0;
    lemma_found_occurs(root, path);
    lemma_child_index(parent.children, name);
    if let Some(k) = child_index(parent.children, name) {
        let s = parent.children[k];
        lemma_occurs_child(root, parent, k);
        let to = lemma_children_range(bs, parent);
        assert(closed_range(bs, parent.start, to)) by {
            if parent.heading is Some {
                lemma_placed(bs, parent);
            }
        }
        assert(occurs(s, s));
        lemma_sections_placed(bs, parent.start, to, Set::empty(), k, s);
    }
}

/// Making a directory adds a heading of that title to the document, below the directory in which it is
/// made. It is refused where there is a directory of that name, and where the heading would be deeper
/// than headings go; directories above the files take none.
pub proof fn law_what_making_a_directory_does(
    fs: FsView,
    dir: Ino,
    name: Seq<char>,
    now: Timestamp,
)
    requires
        fs.wf(),
        !fs.readonly,
    ensures
        ({
            let answer = fs.mkdir(dir, name, now);
            match fs.dir_path(dir) {
                _ if fs.dirs.contains_key(dir) => is_refused(
                    fs,
                    answer,
                    VfsError::PermissionDenied,
                ),
                None => is_refused(fs, answer, VfsError::NotFound),
                Some((file, path)) => match fs.files[file as int].section(path) {
                    None => is_refused(fs, answer, VfsError::NotFound),
                    Some(parent) => if has_child_named(parent, name) {
                        is_refused(fs, answer, VfsError::Exists)
                    } else if parent.depth >= 6 {
                        is_refused(fs, answer, VfsError::Invalid)
                    } else {
                        &&& answer.1 == (StepView::Save {
                            file,
                            next: NextView::NewDir { path: path.push(name) },
                        })
                        &&& gains_heading(
                            fs.files[file as int].document,
                            answer.0.files[file as int].document,
                            parent,
                            name,
                        )
                    },
                },
            }
        }),
{
    if let Some((file, path)) = fs.dir_path(dir) {
        let f = fs.files[file as int];
        if let Some(parent) = f.section(path) {
            lemma_child_of(fs, dir, file, path, name);
            law_inserted_heading_spells_its_title(f.document, parent, name);
        }
    }
}

/// Removing a directory takes its heading out of the document, where nothing is below the heading, and
/// is refused otherwise.
pub proof fn law_what_removing_a_directory_does(
    fs: FsView,
    dir: Ino,
    name: Seq<char>,
    file: usize,
    path: Seq<Seq<char>>,
    now: Timestamp,
)
    requires
        fs.wf(),
        !fs.readonly,
        !fs.dirs.contains_key(dir),
        fs.dir_path(dir) == Some((file, path)),
        fs.files[file as int].section(path) is Some,
        !fs.names.contains_key((dir, name)),
        canonical_child(path, name) is None,
    ensures
        ({
            let f = fs.files[file as int];
            let bs = f.document;
            let answer = fs.remove(dir, name, now);
            if !has_child_named(f.section(path)->0, name) {
                is_refused(fs, answer, VfsError::NotFound)
            } else {
                let h = (f.child_section(path, name)->0).heading->0;
                &&& 0 <= h < bs.len()
                &&& !is_empty_heading(bs, h) ==> is_refused(fs, answer, VfsError::NotEmpty)
                &&& is_empty_heading(bs, h) ==> {
                    &&& answer.1 == (StepView::Save { file, next: NextView::Finish })
                    &&& contents(answer.0.files[file as int].document) == contents(bs.take(h))
                        + contents(bs.skip(h + 1))
                }
            }
        }),
{
    let f = fs.files[file as int];
    lemma_child_of(fs, dir, file, path, name);
    if let Some(s) = f.child_section(path, name) {
        law_only_an_empty_heading_is_removed(f.document, s);
    }
}

/// Renaming a directory where it is gives its heading the new title, and the text of it, and changes
/// no other block.
pub proof fn law_what_renaming_a_directory_does(
    fs: FsView,
    dir: Ino,
    name: Seq<char>,
    new_name: Seq<char>,
    file: usize,
    path: Seq<Seq<char>>,
    now: Timestamp,
)
    requires
        fs.wf(),
        !fs.readonly,
        fs.dir_path(dir) == Some((file, path)),
        fs.files[file as int].section(path) is Some,
        !fs.names.contains_key((dir, name)),
        canonical_child(path, new_name) is None,
    ensures
        ({
            let f = fs.files[file as int];
            let answer = fs.rename(dir, name, dir, new_name, now);
            if !has_child_named(f.section(path)->0, name) {
                is_refused(fs, answer, VfsError::NotFound)
            } else {
                &&& answer.1 == (StepView::Save { file, next: NextView::Finish })
                &&& retitles(
                    f.document,
                    answer.0.files[file as int].document,
                    (f.child_section(path, name)->0).heading->0,
                    new_name,
                )
            }
        }),
{
    let f = fs.files[file as int];
    lemma_child_of(fs, dir, file, path, name);
    if let Some(s) = f.child_section(path, name) {
        law_renamed_heading_spells_its_title(f.document, s, new_name);
    }
}

/// Moving a directory to another directory of its file moves its blocks there, under a heading with
/// the new title; to a directory of another file it is refused. It is refused too where the new name is
/// taken, where the new directory is the moved one or below it, and where a heading would be deeper
/// than headings go.
pub proof fn law_what_moving_a_directory_does(
    fs: FsView,
    from: Ino,
    name: Seq<char>,
    to: Ino,
    new_name: Seq<char>,
    now: Timestamp,
)
    requires
        fs.wf(),
        !fs.readonly,
        from != to,
        fs.dir_path(from) is Some,
        fs.dir_path(to) is Some,
        !fs.names.contains_key((from, name)),
        canonical_child((fs.dir_path(to)->0).1, new_name) is None,
        ({
            let (file, path) = fs.dir_path(from)->0;
            fs.files[file as int].section(path) is Some
        }),
        ({
            let (file, path) = fs.dir_path(to)->0;
            fs.files[file as int].section(path) is Some
        }),
    ensures
        ({
            let (file, path) = fs.dir_path(from)->0;
            let (to_file, to_path) = fs.dir_path(to)->0;
            let f = fs.files[file as int];
            let bs = f.document;
            let parent = f.section(to_path)->0;
            let s = f.child_section(path, name)->0;
            let start = s.heading->0;
            let end = s.subtree_end();
            let answer = fs.rename(from, name, to, new_name, now);
            if to_file != file {
                is_refused(fs, answer, VfsError::Unsupported)
            } else if !has_child_named(f.section(path)->0, name) {
                is_refused(fs, answer, VfsError::NotFound)
            } else {
                &&& ends_subtree(bs, start, end)
                &&& if has_child_named(parent, new_name) {
                    is_refused(fs, answer, VfsError::Exists)
                } else if parent.heading is Some && start <= parent.heading->0 < end {
                    is_refused(fs, answer, VfsError::Invalid)
                } else if gets_too_deep(bs, start, end, parent.depth + 1 - bs[start].depth()) {
                    is_refused(fs, answer, VfsError::Invalid)
                } else {
                    &&& answer.1 == (StepView::Save { file, next: NextView::Finish })
                    &&& moves_subtree(
                        bs,
                        answer.0.files[file as int].document,
                        start,
                        end,
                        parent,
                        new_name,
                    )
                }
            }
        }),
{
    let (file, path) = fs.dir_path(from)->0;
    let (to_file, to_path) = fs.dir_path(to)->0;
    let f = fs.files[file as int];
    lemma_child_of(fs, from, file, path, name);
    lemma_child_of(fs, to, to_file, to_path, new_name);
    if to_file == file {
        if let Some(s) = f.child_section(path, name) {
            let parent = f.section(to_path)->0;
            law_moved_heading_spells_its_title(
                f.document,
                s,
                parent,
                new_name,
                s.subtree_end(),
            );
        }
    }
}

/// A buffer that is moved or renamed is found under its new name, with what it holds, and no longer
/// under the old one; no file changes.
pub proof fn law_what_moving_a_buffer_does(
    fs: FsView,
    from: Ino,
    name: Seq<char>,
    to: Ino,
    new_name: Seq<char>,
    now: Timestamp,
)
    requires
        !fs.readonly,
        fs.names.contains_key((from, name)),
        fs.dir_path(to) is Some,
        canonical_child((fs.dir_path(to)->0).1, new_name) is None,
    ensures
        ({
            let (after, step) = fs.rename(from, name, to, new_name, now);
            &&& step == StepView::Finished(Ok(Reply::Done))
            &&& after.names.contains_key((to, new_name))
            &&& after.names[(to, new_name)] == fs.names[(from, name)]
            &&& (from, name) != (to, new_name) ==> !after.names.contains_key((from, name))
            &&& forall|dir: Ino, n: Seq<char>|
                (dir, n) != (from, name) && (dir, n) != (to, new_name)
                    ==> #[trigger] after.names.contains_key((dir, n)) == fs.names.contains_key(
                    (dir, n),
                ) && after.names[(dir, n)] == fs.names[(dir, n)]
            &&& after.scratch == fs.scratch
            &&& after.files == fs.files
        }),
{
}

/// What the blocks of a section's own content are replaced by: the blocks of a text, where it is
/// Markdown; otherwise the request is refused.
pub open spec fn content_becomes(
    fs: FsView,
    answer: (FsView, StepView),
    file: usize,
    path: Seq<Seq<char>>,
    text: Seq<char>,
    next: NextView,
) -> bool {
    let bs = fs.files[file as int].document;
    let s = fs.files[file as int].section(path)->0;
    match parsed(text) {
        Err(_) => is_refused(fs, answer, VfsError::Invalid),
        Ok(blocks) => {
            &&& answer.1 == (StepView::Save { file, next })
            &&& contents(answer.0.files[file as int].document) == contents(bs.take(s.start))
                + contents(blocks) + contents(bs.skip(s.end))
        },
    }
}

proof fn lemma_content_becomes(fs: FsView, file: usize, path: Seq<Seq<char>>, text: Seq<char>)
    requires
        fs.wf(),
        file < fs.files.len(),
        fs.files[file as int].section(path) is Some,
        parsed(text) is Ok,
    ensures
        ({
            let f = fs.files[file as int];
            let s = f.section(path)->0;
            let edit = f.content_edit(path, text);
            &&& edit is Ok && edit->Ok_0 is Some
            &&& contents((edit->Ok_0)->0) == contents(f.document.take(s.start)) + contents(
                parsed(text)->Ok_0,
            ) + contents(f.document.skip(s.end))
        }),
{
    let f = fs.files[file as int];
    let s = f.section(path)->0;
    assert(f.current());
    lemma_section_in_bounds(f, path);
    law_splice_keeps_all_other_blocks(f.document, s.start, s.end, parsed(text)->Ok_0);
}

/// Emptying a `content.md`, by truncating it or by removing it, puts the blocks of the empty text in
/// place of the section's own content.
pub proof fn law_what_emptying_a_content_does(
    fs: FsView,
    dir: Ino,
    ino: Ino,
    file: usize,
    path: Seq<Seq<char>>,
    now: Timestamp,
)
    requires
        fs.wf(),
        !fs.readonly,
        !fs.dirs.contains_key(dir),
        !fs.names.contains_key((dir, CONTENT_FILE@)),
        !fs.scratch.contains_key(ino),
        fs.dir_path(dir) == Some((file, path)),
        fs.path_for_ino(ino) == Some((file, PathView::Content(path))),
        fs.files[file as int].section(path) is Some,
    ensures
        content_becomes(
            fs,
            fs.truncate(ino, now),
            file,
            path,
            Seq::empty(),
            NextView::Stat { ino },
        ),
        content_becomes(
            fs,
            fs.set_size(ino, Some(0u64), now),
            file,
            path,
            Seq::empty(),
            NextView::Stat { ino },
        ),
        content_becomes(
            fs,
            fs.remove(dir, CONTENT_FILE@, now),
            file,
            path,
            Seq::empty(),
            NextView::Finish,
        ),
{
    assert(fs.owner[ino] < fs.files.len());
    if parsed(Seq::empty()) is Ok {
        lemma_content_becomes(fs, file, path, Seq::empty());
    }
}

/// A size other than 0 changes nothing; the request is answered with the attributes of the entry.
pub proof fn law_other_sizes_change_nothing(
    fs: FsView,
    ino: Ino,
    size: Option<u64>,
    now: Timestamp,
)
    requires
        size is Some ==> size->0 > 0,
    ensures
        fs.set_size(ino, size, now).0 == fs,
        match fs.getattr(ino, now) {
            Ok(attr) => fs.set_size(ino, size, now).1 == StepView::Finished(Ok(Reply::Attr(attr))),
            Err(e) => fs.set_size(ino, size, now).1 == StepView::Finished(Err(e)),
        },
{
}

/// An emptied buffer holds nothing, and nothing else changes.
pub proof fn law_emptied_buffer_is_empty(fs: FsView, ino: Ino, now: Timestamp)
    requires
        !fs.readonly,
        fs.scratch.contains_key(ino),
    ensures
        ({
            let (after, step) = fs.truncate(ino, now);
            &&& fs.set_size(ino, Some(0u64), now) == (after, step)
            &&& after.contents(ino) == Ok::<Seq<u8>, VfsError>(Seq::empty())
            &&& step == StepView::Finished(
                Ok(Reply::Attr(FileAttr { ino, kind: FileKind::File, size: 0, mtime: now })),
            )
            &&& after.files == fs.files && after.names == fs.names
            &&& forall|x: Ino|
                x != ino ==> #[trigger] after.scratch.contains_key(x) == fs.scratch.contains_key(x)
                    && after.scratch[x] == fs.scratch[x]
        }),
{
}

/// A buffer that is renamed to `content.md` has its text parsed and put in place of the section's own
/// content; then the buffer is forgotten.
pub proof fn law_what_adopting_a_buffer_does(
    fs: FsView,
    from: Ino,
    name: Seq<char>,
    to: Ino,
    file: usize,
    path: Seq<Seq<char>>,
    text: Seq<char>,
    now: Timestamp,
)
    requires
        fs.wf(),
        !fs.readonly,
        fs.names.contains_key((from, name)),
        fs.scratch.contains_key(fs.names[(from, name)]),
        fs.dir_path(to) == Some((file, path)),
        fs.files[file as int].section(path) is Some,
        stands_for(fs.scratch[fs.names[(from, name)]], text),
    ensures
        content_becomes(
            fs,
            fs.rename(from, name, to, CONTENT_FILE@, now),
            file,
            path,
            text,
            NextView::Forget { from, name },
        ),
{
    assert(fs.owner[to] < fs.files.len());
    if parsed(text) is Ok {
        lemma_content_becomes(fs, file, path, text);
    }
}

/// A `content.md` that is renamed to that of another directory of the file has its text put in place of
/// the content there; once that is saved, its own content is replaced by that of the empty text. To
/// another file it is refused, and so is every other file but a buffer.
pub proof fn law_what_moving_a_content_does(
    fs: FsView,
    from: Ino,
    name: Seq<char>,
    to: Ino,
    text: Seq<char>,
    now: Timestamp,
)
    requires
        fs.wf(),
        !fs.readonly,
        from != to,
        !fs.names.contains_key((from, name)),
        fs.dir_path(from) is Some,
        fs.dir_path(to) is Some,
        (fs.dir_path(from)->0).1 != (fs.dir_path(to)->0).1,
        ({
            let (file, path) = fs.dir_path(from)->0;
            stands_for(fs.files[file as int].section_bytes(path), text)
        }),
        ({
            let (file, path) = fs.dir_path(to)->0;
            fs.files[file as int].section(path) is Some
        }),
    ensures
        ({
            let (file, path) = fs.dir_path(from)->0;
            let (to_file, to_path) = fs.dir_path(to)->0;
            let answer = fs.rename(from, name, to, CONTENT_FILE@, now);
            let next = NextView::ClearSource { path, from, name };
            if name != CONTENT_FILE@ {
                is_refused(fs, answer, VfsError::NotFound)
            } else if file != to_file {
                is_refused(fs, answer, VfsError::Unsupported)
            } else {
                content_becomes(fs, answer, file, to_path, text, next)
            }
        }),
{
    let (file, path) = fs.dir_path(from)->0;
    let (to_file, to_path) = fs.dir_path(to)->0;
    assert(fs.owner[to] < fs.files.len());
    if parsed(text) is Ok && file == to_file {
        lemma_content_becomes(fs, file, to_path, text);
    }
}

/// Once a moved `content.md` is saved where it went, its own content is replaced by that of the empty
/// text, and saved.
pub proof fn law_moved_content_leaves_an_empty_one(
    fs: FsView,
    file: usize,
    path: Seq<Seq<char>>,
    from: Ino,
    name: Seq<char>,
    now: Timestamp,
)
    requires
        fs.wf(),
        file < fs.files.len(),
        fs.files[file as int].section(path) is Some,
    ensures
        content_becomes(
            fs,
            fs.resumed(file, NextView::ClearSource { path, from, name }, now),
            file,
            path,
            Seq::empty(),
            NextView::Forget { from, name },
        ),
{
    if parsed(Seq::empty()) is Ok {
        lemma_content_becomes(fs, file, path, Seq::empty());
    }
}

/// Only files can be written and emptied: a directory is refused, and so is a number that stands for
/// nothing.
pub proof fn law_only_files_are_written(
    fs: FsView,
    ino: Ino,
    offset: int,
    data: Seq<u8>,
    now: Timestamp,
)
    requires
        !fs.readonly,
        !fs.scratch.contains_key(ino),
    ensures
        fs.path_for_ino(ino) is None ==> is_refused(
            fs,
            fs.write(ino, offset, data, now),
            VfsError::NotFound,
        ),
        fs.path_for_ino(ino) is None && !fs.dirs.contains_key(ino) ==> is_refused(
            fs,
            fs.truncate(ino, now),
            VfsError::NotFound,
        ),
        fs.dir_path(ino) is Some ==> is_refused(
            fs,
            fs.write(ino, offset, data, now),
            VfsError::IsDir,
        ),
        fs.dir_path(ino) is Some ==> is_refused(fs, fs.truncate(ino, now), VfsError::IsDir),
{
}

/// Whether the front matter of `file` is replaced by `text`: it stays of its kind, no other block
/// changes, and the number `ino` gives back the text.
pub open spec fn front_matter_becomes(
    fs: FsView,
    after: FsView,
    ino: Ino,
    file: usize,
    kind: FrontMatterKind,
    text: Seq<char>,
) -> bool {
    let bs = fs.files[file as int].document;
    let bs2 = after.files[file as int].document;
    &&& bs2.len() == bs.len()
    &&& bs.len() > 0
    &&& match kind {
        FrontMatterKind::Yaml => bs2[0].content == ContentView::Yaml(text),
        FrontMatterKind::Toml => bs2[0].content == ContentView::Toml(text),
    }
    &&& forall|j: int| 0 < j < bs.len() ==> #[trigger] bs2[j] == bs[j]
    &&& after.contents(ino) == Ok::<Seq<u8>, VfsError>(encode_utf8(text))
}

proof fn lemma_front_matter_becomes(
    fs: FsView,
    ino: Ino,
    file: usize,
    kind: FrontMatterKind,
    text: Seq<char>,
)
    requires
        fs.wf(),
        !fs.readonly,
        !fs.scratch.contains_key(ino),
        fs.path_for_ino(ino) == Some((file, PathView::FrontMatter(kind))),
    ensures
        ({
            let f = fs.files[file as int];
            let edit = f.frontmatter_edit(kind, text);
            &&& file < fs.files.len()
            &&& edit is Ok && edit->Ok_0 is Some
            &&& front_matter_becomes(
                fs,
                fs.rebuilt(file, (edit->Ok_0)->0),
                ino,
                file,
                kind,
                text,
            )
        }),
{
    let f = fs.files[file as int];
    assert(fs.owner[ino] < fs.files.len());
    assert(in_step(f.inodes, f.tree));
    let shadow = f.inodes.shadow;
    lemma_no_front_matter_below(
        Index::none().record_section(Seq::empty(), shadow),
        shadow,
        shadow.children.len(),
        Seq::empty(),
        ino,
    );
    assert(f.inodes.front_matter == Some((kind, ino)));
    let bs = f.document;
    let b = with_front_matter(bs[0], text);
    let document = bs.update(0, b);
    assert(f.shown is None);
    assert(front_matter_of(bs) == Some((kind, 0int)));
    assert(document[0] == b);
    assert(front_matter_of(document) == Some((kind, 0int)));
    let after = fs.rebuilt(file, document);
    let g = after.files[file as int];
    assert(g.inodes.front_matter == Some((kind, ino)));
    assert(g.inodes.index.paths[ino] == PathView::FrontMatter(kind));
    assert(after.owner.contains_key(ino));
    assert(front_matter_text(b) == text);
}

/// A write into the front matter file replaces the front matter by the text of what the file then holds,
/// and changes no other block.
pub proof fn law_what_writing_front_matter_does(
    fs: FsView,
    ino: Ino,
    file: usize,
    kind: FrontMatterKind,
    offset: int,
    data: Seq<u8>,
    bytes: Seq<u8>,
    text: Seq<char>,
    now: Timestamp,
)
    requires
        fs.wf(),
        !fs.readonly,
        !fs.scratch.contains_key(ino),
        fs.path_for_ino(ino) == Some((file, PathView::FrontMatter(kind))),
        0 <= offset,
        overwritten(fs.contents(ino)->Ok_0, offset, data, bytes),
        stands_for(bytes, text),
    ensures
        ({
            let (after, step) = fs.write(ino, offset, data, now);
            &&& step == (StepView::Save {
                file,
                next: NextView::Attr { ino, entry: PathView::FrontMatter(kind) },
            })
            &&& front_matter_becomes(fs, after, ino, file, kind, text)
        }),
{
    let before = fs.files[file as int].frontmatter_bytes(kind);
    law_written_bytes(before, offset, data);
    law_a_write_has_one_outcome(before, offset, data, bytes, spliced(before, offset, data));
    lemma_front_matter_becomes(fs, ino, file, kind, text);
}

/// Emptying the front matter file, by truncating it or by removing it, leaves empty front matter.
pub proof fn law_what_emptying_front_matter_does(
    fs: FsView,
    dir: Ino,
    ino: Ino,
    file: usize,
    kind: FrontMatterKind,
    now: Timestamp,
)
    requires
        fs.wf(),
        !fs.readonly,
        !fs.scratch.contains_key(ino),
        !fs.dirs.contains_key(dir),
        fs.dir_path(dir) == Some((file, Seq::<Seq<char>>::empty())),
        fs.path_for_ino(ino) == Some((file, PathView::FrontMatter(kind))),
        !fs.names.contains_key((dir, kind.spec_file_name())),
    ensures
        ({
            let (after, step) = fs.truncate(ino, now);
            &&& step == (StepView::Save { file, next: NextView::Stat { ino } })
            &&& front_matter_becomes(fs, after, ino, file, kind, Seq::empty())
        }),
        ({
            let (after, step) = fs.remove(dir, kind.spec_file_name(), now);
            &&& step == (StepView::Save { file, next: NextView::Finish })
            &&& front_matter_becomes(fs, after, ino, file, kind, Seq::empty())
        }),
{
    lemma_front_matter_becomes(fs, ino, file, kind, Seq::empty());
    let root = Seq::<Seq<char>>::empty();
    lemma_front_matter_name(kind);
    assert(canonical_child(root, kind.spec_file_name()) == Some(PathView::FrontMatter(kind)));
}

proof fn lemma_front_matter_name(kind: FrontMatterKind)
    ensures
        kind.spec_file_name() != CONTENT_FILE@,
        frontmatter_named(kind.spec_file_name()) == Some(kind),
{
    reveal_strlit("content.md");
    reveal_strlit("_frontmatter.yaml");
    reveal_strlit("_frontmatter.toml");
    assert("_frontmatter.yaml"@[13] == 'y' && "_frontmatter.toml"@[13] == 't');
    assert("_frontmatter.yaml"@[0] == '_' && "_frontmatter.toml"@[0] == '_');
    assert("content.md"@[0] == 'c');
}

/// A buffer that is renamed to the front matter file becomes the front matter; then it is forgotten.
pub proof fn law_what_adopting_front_matter_does(
    fs: FsView,
    from: Ino,
    name: Seq<char>,
    to: Ino,
    ino: Ino,
    file: usize,
    kind: FrontMatterKind,
    text: Seq<char>,
    now: Timestamp,
)
    requires
        fs.wf(),
        !fs.readonly,
        fs.names.contains_key((from, name)),
        fs.scratch.contains_key(fs.names[(from, name)]),
        stands_for(fs.scratch[fs.names[(from, name)]], text),
        fs.dir_path(to) == Some((file, Seq::<Seq<char>>::empty())),
        !fs.scratch.contains_key(ino),
        fs.path_for_ino(ino) == Some((file, PathView::FrontMatter(kind))),
    ensures
        ({
            let (after, step) = fs.rename(from, name, to, kind.spec_file_name(), now);
            &&& step == (StepView::Save { file, next: NextView::Forget { from, name } })
            &&& front_matter_becomes(fs, after, ino, file, kind, text)
        }),
{
    lemma_front_matter_becomes(fs, ino, file, kind, text);
    lemma_front_matter_name(kind);
}

/// Removing front matter that is not there is done at once, and changes nothing.
pub proof fn law_missing_front_matter_is_removed(
    fs: FsView,
    dir: Ino,
    file: usize,
    kind: FrontMatterKind,
    now: Timestamp,
)
    requires
        !fs.readonly,
        !fs.dirs.contains_key(dir),
        fs.dir_path(dir) == Some((file, Seq::<Seq<char>>::empty())),
        !fs.names.contains_key((dir, kind.spec_file_name())),
        fs.files[file as int].tree.front_matter is Some ==> (
        fs.files[file as int].tree.front_matter->0).0 != kind,
    ensures
        fs.remove(dir, kind.spec_file_name(), now) == (fs, StepView::Finished(Ok(Reply::Done))),
{
    lemma_front_matter_name(kind);
}

/// What a request ends with once its file is saved: the attributes that are reported of the entry it
/// was about, the new directory, or nothing; and a buffer that was adopted is gone.
pub proof fn law_what_requests_end_with(
    fs: FsView,
    file: usize,
    ino: Ino,
    entry: PathView,
    path: Seq<Seq<char>>,
    from: Ino,
    name: Seq<char>,
    now: Timestamp,
)
    ensures
        !fs.scratch.contains_key(ino) && !fs.dirs.contains_key(ino) && fs.path_for_ino(ino) == Some(
            (file, entry),
        ) ==> fs.getattr(ino, now) is Ok && fs.resumed(
            file,
            NextView::Attr { ino, entry },
            now,
        ) == (fs, StepView::Finished(Ok(Reply::Attr(fs.getattr(ino, now)->Ok_0)))),
        match fs.getattr(ino, now) {
            Ok(attr) => fs.resumed(file, NextView::Stat { ino }, now) == (
                fs,
                StepView::Finished(Ok(Reply::Attr(attr))),
            ),
            Err(e) => is_refused(fs, fs.resumed(file, NextView::Stat { ino }, now), e),
        },
        fs.resumed(file, NextView::Finish, now) == (fs, StepView::Finished(Ok(Reply::Done))),
        ({
            let inos = fs.files[file as int].inodes.index.inos;
            let r = fs.resumed(file, NextView::NewDir { path }, now);
            if inos.contains_key(PathView::Dir(path)) {
                let x = inos[PathView::Dir(path)];
                r == (
                    fs,
                    StepView::Finished(
                        Ok(
                            Reply::Entry(
                                x,
                                FileAttr { ino: x, kind: FileKind::Dir, size: 0, mtime: now },
                            ),
                        ),
                    ),
                )
            } else {
                is_refused(fs, r, VfsError::Io)
            }
        }),
        ({
            let (after, step) = fs.resumed(file, NextView::Forget { from, name }, now);
            &&& step == StepView::Finished(Ok(Reply::Done))
            &&& after.files == fs.files && after.dirs == fs.dirs && after.owner == fs.owner
            &&& !after.names.contains_key((from, name))
            &&& fs.names.contains_key((from, name)) ==> !after.scratch.contains_key(
                fs.names[(from, name)],
            )
            &&& !fs.names.contains_key((from, name)) ==> after == fs
            &&& forall|d: Ino, n: Seq<char>|
                (d, n) != (from, name) ==> #[trigger] after.names.contains_key((d, n))
                    == fs.names.contains_key((d, n)) && after.names[(d, n)] == fs.names[(d, n)]
            &&& forall|x: Ino|
                !(fs.names.contains_key((from, name)) && x == fs.names[(from, name)])
                    ==> #[trigger] after.scratch.contains_key(x) == fs.scratch.contains_key(x)
                    && after.scratch[x] == fs.scratch[x]
        }),
{
}

/// Nothing but a buffer and a `content.md` is renamed to a file that stands for part of the document.
pub proof fn law_directories_do_not_become_files(
    fs: FsView,
    from: Ino,
    name: Seq<char>,
    to: Ino,
    new_name: Seq<char>,
    now: Timestamp,
)
    requires
        !fs.readonly,
        !fs.names.contains_key((from, name)),
        name != "content.md"@,
        fs.dir_path(to) is Some,
        canonical_child((fs.dir_path(to)->0).1, new_name) is Some,
    ensures
        is_refused(fs, fs.rename(from, name, to, new_name, now), VfsError::NotFound),
{
}

/// A `content.md` that is renamed to the front matter file of its file becomes the front matter; once
/// that is saved, its own content is replaced by that of the empty text.
pub proof fn law_what_moving_a_content_to_front_matter_does(
    fs: FsView,
    from: Ino,
    path: Seq<Seq<char>>,
    to: Ino,
    ino: Ino,
    file: usize,
    kind: FrontMatterKind,
    text: Seq<char>,
    now: Timestamp,
)
    requires
        fs.wf(),
        !fs.readonly,
        !fs.names.contains_key((from, CONTENT_FILE@)),
        fs.dir_path(from) == Some((file, path)),
        stands_for(fs.files[file as int].section_bytes(path), text),
        fs.dir_path(to) == Some((file, Seq::<Seq<char>>::empty())),
        !fs.scratch.contains_key(ino),
        fs.path_for_ino(ino) == Some((file, PathView::FrontMatter(kind))),
    ensures
        ({
            let (after, step) = fs.rename(from, CONTENT_FILE@, to, kind.spec_file_name(), now);
            &&& step == (StepView::Save {
                file,
                next: NextView::ClearSource { path, from, name: CONTENT_FILE@ },
            })
            &&& front_matter_becomes(fs, after, ino, file, kind, text)
        }),
{
    lemma_front_matter_becomes(fs, ino, file, kind, text);
    lemma_front_matter_name(kind);
}

/// A buffer that is renamed to front matter that is not there is forgotten at once, and no file changes.
pub proof fn law_front_matter_that_is_not_there_takes_nothing(
    fs: FsView,
    from: Ino,
    name: Seq<char>,
    to: Ino,
    file: usize,
    kind: FrontMatterKind,
    now: Timestamp,
)
    requires
        !fs.readonly,
        fs.names.contains_key((from, name)),
        fs.scratch.contains_key(fs.names[(from, name)]),
        fs.dir_path(to) == Some((file, Seq::<Seq<char>>::empty())),
        fs.files[file as int].tree.front_matter is Some ==> (
        fs.files[file as int].tree.front_matter->0).0 != kind,
    ensures
        ({
            let (after, step) = fs.rename(from, name, to, kind.spec_file_name(), now);
            &&& step == StepView::Finished(Ok(Reply::Done))
            &&& after.files == fs.files
            &&& !after.names.contains_key((from, name))
            &&& !after.scratch.contains_key(fs.names[(from, name)])
        }),
{
    lemma_front_matter_name(kind);
}

} // verus!
