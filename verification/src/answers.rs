//! What a mount answers about its entries.
use vstd::prelude::*;
use vstd::utf8::encode_utf8;

use crate::block::{rendered, ContentView};
use crate::inode::PathView;
use crate::listing::lemma_child_entry;
use crate::mount::lemma_found_occurs;
use crate::numbering::{in_step, proper_table, table_uses};
use crate::outline::{lemma_next_heading_first, lemma_placed};
use crate::section::{next_heading, tree_of, FrontMatterKind};
use crate::state::{canonical_child, entry_index, page_start, FsView, Reply, StepView};
use crate::uniqueness::{in_files, law_entries_are_the_numbers_in_use, numbers_apart};
use crate::vfs::{DirEntryView, FileAttr, Ino, Timestamp, VfsError};
use crate::visibility::{law_every_directory_has_numbers, law_numbers_lead_back};

verus! {

proof fn lemma_fixed_directories_are_no_entries(fs: FsView, ino: Ino)
    requires
        numbers_apart(fs),
        fs.dirs.contains_key(ino),
    ensures
        fs.path_for_ino(ino) is None,
        !fs.scratch.contains_key(ino),
{
    if fs.owner.contains_key(ino) {
        assert(in_files(fs.files, ino));
    }
}

/// What is reported of an entry: its number, the present time, whether it is a file or a directory, and
/// how many bytes a file has that is read whole. What cannot be reported can be neither read nor
/// listed.
pub proof fn law_what_is_reported_of_an_entry(fs: FsView, ino: Ino, now: Timestamp)
    requires
        fs.wf(),
        numbers_apart(fs),
        fs.contents(ino) is Ok ==> (fs.contents(ino)->Ok_0).len() <= u64::MAX,
    ensures
        match fs.getattr(ino, now) {
            Ok(attr) => {
                &&& attr.ino == ino
                &&& attr.mtime == now
                &&& attr.kind is File <==> fs.contents(ino) is Ok
                &&& attr.kind is File ==> attr.size == (fs.contents(ino)->Ok_0).len()
                &&& attr.kind is Dir ==> attr.size == 0
                &&& attr.kind is Dir <==> fs.dirs.contains_key(ino) || fs.dir_path(ino) is Some
            },
            Err(e) => {
                &&& e is NotFound
                &&& fs.contents(ino) == Err::<Seq<u8>, VfsError>(VfsError::NotFound)
                &&& !fs.dirs.contains_key(ino)
                &&& fs.dir_path(ino) is None
                &&& fs.entries(ino, now) is Err
            },
        },
{
    if fs.dirs.contains_key(ino) {
        lemma_fixed_directories_are_no_entries(fs, ino);
    }
    if fs.scratch.contains_key(ino) && fs.owner.contains_key(ino) {
        assert(in_files(fs.files, ino));
    }
}

/// A directory has no bytes, and only a directory is listed.
pub proof fn law_directories_are_listed_and_files_are_read(fs: FsView, ino: Ino, now: Timestamp)
    requires
        fs.wf(),
        numbers_apart(fs),
    ensures
        fs.dir_path(ino) is Some ==> fs.contents(ino) == Err::<Seq<u8>, VfsError>(VfsError::IsDir),
        fs.dirs.contains_key(ino) ==> fs.contents(ino) is Err && fs.entries(ino, now) is Ok,
        fs.contents(ino) is Ok ==> fs.entries(ino, now) == Err::<Seq<DirEntryView>, VfsError>(
            VfsError::NotDir,
        ),
        fs.contents(ino) is Ok ==> forall|name: Seq<char>| #[trigger]
            fs.lookup(ino, name) == Err::<Ino, VfsError>(VfsError::NotDir),
        fs.contents(ino) is Ok ==> fs.parent_of(ino) == Err::<Ino, VfsError>(VfsError::NotDir),
{
    if fs.dirs.contains_key(ino) {
        lemma_fixed_directories_are_no_entries(fs, ino);
    }
    if fs.owner.contains_key(ino) {
        assert(in_files(fs.files, ino));
    }
    if fs.scratch.contains_key(ino) {
        assert(!fs.owner.contains_key(ino));
    }
}

/// A `content.md` holds the text of the blocks between its section's heading and the next heading of
/// any depth, and that of a file's own directory those before the first heading, front matter aside.
pub proof fn law_content_is_what_stands_below_the_heading(
    fs: FsView,
    ino: Ino,
    file: usize,
    path: Seq<Seq<char>>,
    first: int,
    end: int,
)
    requires
        fs.wf(),
        !fs.scratch.contains_key(ino),
        fs.path_for_ino(ino) == Some((file, PathView::Content(path))),
        fs.files[file as int].shown is None,
        ({
            let f = fs.files[file as int];
            let bs = f.document;
            &&& f.section(path) is Some
            &&& match (f.section(path)->0).heading {
                Some(h) => first == h + 1,
                None => first == (if bs.len() > 0 && (bs[0].content is Yaml || bs[0].content is Toml) {
                    1int
                } else {
                    0
                }),
            }
            &&& first <= end <= bs.len()
            &&& forall|j: int| first <= j < end ==> !(#[trigger] bs[j]).is_heading()
            &&& end < bs.len() ==> bs[end].is_heading()
        }),
    ensures
        fs.contents(ino) == Ok::<Seq<u8>, VfsError>(
            encode_utf8(rendered(fs.files[file as int].document.subrange(first, end))),
        ),
{
    let f = fs.files[file as int];
    assert(fs.owner[ino] < fs.files.len());
    assert(f.current());
    let bs = f.document;
    let root = tree_of(bs).root;
    let s = f.section(path)->0;
    lemma_found_occurs(root, path);
    if s != root {
        lemma_placed(bs, s);
    }
    assert(s.start == first);
    lemma_next_heading_first(bs, first);
    let e = next_heading(bs, first);
    assert(s.end == e);
    if e < end {
        assert(bs[e].is_heading());
    } else if end < e {
        assert(bs[end].is_heading());
    }
}

/// The front matter file holds the text of the front matter, which is the first block.
pub proof fn law_front_matter_is_the_first_block(
    fs: FsView,
    ino: Ino,
    file: usize,
    kind: FrontMatterKind,
    text: Seq<char>,
)
    requires
        fs.wf(),
        !fs.scratch.contains_key(ino),
        fs.path_for_ino(ino) == Some((file, PathView::FrontMatter(kind))),
        fs.files[file as int].document.len() > 0,
        ({
            let content = fs.files[file as int].document[0].content;
            match kind {
                FrontMatterKind::Yaml => content == ContentView::Yaml(text),
                FrontMatterKind::Toml => content == ContentView::Toml(text),
            }
        }),
    ensures
        fs.contents(ino) == Ok::<Seq<u8>, VfsError>(encode_utf8(text)),
{
    let f = fs.files[file as int];
    assert(fs.owner[ino] < fs.files.len());
    assert(f.current());
    assert(f.tree.front_matter == Some((kind, 0int)));
}

proof fn lemma_entry_index_first(entries: Seq<DirEntryView>, ino: Ino)
    ensures
        match entry_index(entries, ino) {
            Some(i) => 0 <= i < entries.len() && entries[i].ino == ino && forall|j: int|
                0 <= j < i ==> (#[trigger] entries[j]).ino != ino,
            None => forall|j: int| 0 <= j < entries.len() ==> (#[trigger] entries[j]).ino != ino,
        },
    decreases entries.len(),
{
    if entries.len() > 0 && entries[0].ino != ino {
        let rest = entries.drop_first();
        lemma_entry_index_first(rest, ino);
        match entry_index(rest, ino) {
            Some(i) => {
                assert(entries[i + 1] == rest[i]);
                assert forall|j: int| 0 <= j < i + 1 implies (#[trigger] entries[j]).ino != ino by {
                    if j > 0 {
                        assert(entries[j] == rest[j - 1]);
                    }
                }
            },
            None => {
                assert forall|j: int| 0 <= j < entries.len() implies (#[trigger] entries[j]).ino
                    != ino by {
                    if j > 0 {
                        assert(entries[j] == rest[j - 1]);
                    }
                }
            },
        }
    }
}

/// A page of a directory holds the entries behind the one that was listed last, or those from the start
/// on where none was: as many as were asked for, and at least one, or all that are left; and it is the
/// last page exactly if none is left behind it. Behind an entry that is not there, there is none.
pub proof fn law_what_a_page_holds(
    fs: FsView,
    dir: Ino,
    start_after: Ino,
    max: nat,
    now: Timestamp,
    start: int,
)
    requires
        fs.entries(dir, now) is Ok,
        ({
            let entries = fs.entries(dir, now)->Ok_0;
            ||| start_after == 0 && start == 0
            ||| {
                &&& start_after != 0
                &&& 0 < start <= entries.len()
                &&& entries[start - 1].ino == start_after
                &&& forall|j: int| 0 <= j < start - 1 ==> (#[trigger] entries[j]).ino != start_after
            }
            ||| {
                &&& start_after != 0
                &&& start == entries.len()
                &&& forall|j: int|
                    0 <= j < entries.len() ==> (#[trigger] entries[j]).ino != start_after
            }
        }),
    ensures
        ({
            let entries = fs.entries(dir, now)->Ok_0;
            let r = fs.readdir(dir, start_after, max, now);
            let (shown, end) = r->Ok_0;
            let wanted = if max == 0 {
                1int
            } else {
                max as int
            };
            &&& r is Ok
            &&& start + shown.len() <= entries.len()
            &&& forall|i: int| 0 <= i < shown.len() ==> #[trigger] shown[i] == entries[start + i]
            &&& end <==> start + shown.len() == entries.len()
            &&& shown.len() <= wanted
            &&& !end ==> shown.len() == wanted
        }),
{
    let entries = fs.entries(dir, now)->Ok_0;
    lemma_entry_index_first(entries, start_after);
    if start_after != 0 {
        if let Some(i) = entry_index(entries, start_after) {
            if i < start - 1 {
                assert(entries[i].ino != start_after);
            }
        }
    }
    assert(page_start(entries, start_after) == start);
}

/// What cannot be listed whole cannot be listed page by page.
pub proof fn law_pages_are_refused_alike(
    fs: FsView,
    dir: Ino,
    start_after: Ino,
    max: nat,
    now: Timestamp,
)
    ensures
        fs.entries(dir, now) is Err ==> fs.readdir(dir, start_after, max, now) == Err::<
            (Seq<DirEntryView>, bool),
            VfsError,
        >(fs.entries(dir, now)->Err_0),
{
}

/// Every entry that a directory of a file lists comes with the attributes that are reported of it.
pub proof fn law_listed_attributes_are_those_reported(
    fs: FsView,
    dir: Ino,
    file: usize,
    path: Seq<Seq<char>>,
    k: int,
    now: Timestamp,
)
    requires
        fs.wf(),
        numbers_apart(fs),
        fs.dir_path(dir) == Some((file, path)),
        fs.files[file as int].section(path) is Some,
        0 <= k < (fs.entries(dir, now)->Ok_0).len(),
    ensures
        fs.entries(dir, now) is Ok,
        ({
            let e = (fs.entries(dir, now)->Ok_0)[k];
            &&& e.attr.ino == e.ino
            &&& fs.getattr(e.ino, now) == Ok::<FileAttr, VfsError>(e.attr)
        }),
{
    let f = fs.files[file as int];
    assert(fs.owner[dir] < fs.files.len());
    assert(!fs.dirs.contains_key(dir)) by {
        if fs.dirs.contains_key(dir) {
            lemma_fixed_directories_are_no_entries(fs, dir);
        }
    }
    assert(in_step(f.inodes, f.tree));
    assert(proper_table(f.inodes));
    let section = f.section(path)->0;
    law_every_directory_has_numbers(f.inodes, f.tree, path);
    law_numbers_lead_back(f.inodes);
    let all = f.entries(dir, path, section, now);
    let front = f.frontmatter_entries(path, now);
    let n = section.children.len();
    let children = f.child_entries(path, section.children, n, now);
    if k == 0 {
        assert(all[0] == f.content_entry(dir, path, now));
        lemma_reported(fs, file, PathView::Content(path), now);
    } else if k < 1 + front.len() {
        assert(all[k] == front[k - 1]);
        let kind = (f.tree.front_matter->0).0;
        lemma_reported(fs, file, PathView::FrontMatter(kind), now);
    } else {
        let j = k - 1 - front.len();
        assert(all[k] == children[j]);
        assert(children.len() == n) by {
            if n > 0 {
                lemma_child_entry(f, path, section, n, now, 0);
            }
        }
        lemma_child_entry(f, path, section, n, now, j);
        lemma_reported(fs, file, PathView::Dir(path.push(section.children[j].name)), now);
    }
}

/// The attributes of an entry of a file are reported under its number.
proof fn lemma_reported(fs: FsView, file: usize, p: PathView, now: Timestamp)
    requires
        fs.wf(),
        numbers_apart(fs),
        file < fs.files.len(),
        fs.files[file as int].inodes.index.inos.contains_key(p),
    ensures
        ({
            let f = fs.files[file as int];
            let ino = f.inodes.index.inos[p];
            &&& fs.path_for_ino(ino) == Some((file, p))
            &&& fs.getattr(ino, now) == Ok::<FileAttr, VfsError>(
                f.attr_for(ino, p, now),
            )
        }),
{
    let f = fs.files[file as int];
    assert(in_step(f.inodes, f.tree));
    assert(proper_table(f.inodes));
    law_numbers_lead_back(f.inodes);
    let ino = f.inodes.index.inos[p];
    law_entries_are_the_numbers_in_use(f.inodes, ino);
    assert(table_uses(fs.files[file as int].inodes, ino));
    assert(in_files(fs.files, ino));
    assert(fs.owner.contains_key(ino));
    assert(table_uses(fs.files[fs.owner[ino] as int].inodes, ino));
    assert(fs.owner[ino] == file);
    assert(!fs.dirs.contains_key(ino));
    assert(!fs.scratch.contains_key(ino));
}

/// A directory above the files lists its entries in order, each as a directory.
pub proof fn law_entries_above_the_files_are_directories(fs: FsView, dir: Ino, k: int, now: Timestamp)
    requires
        fs.dirs.contains_key(dir),
        0 <= k < fs.dirs[dir].children.len(),
    ensures
        fs.entries(dir, now) is Ok,
        (fs.entries(dir, now)->Ok_0).len() == fs.dirs[dir].children.len(),
        ({
            let e = (fs.entries(dir, now)->Ok_0)[k];
            let (name, ino) = fs.dirs[dir].children[k];
            &&& e.name == name
            &&& e.ino == ino
            &&& e.attr.ino == ino
            &&& e.attr.kind is Dir
            &&& e.attr.size == 0
            &&& e.attr.mtime == now
        }),
{
}

/// Creating a file under a name that the mount has no use for makes an empty buffer with a number that
/// was not given out before. Creating it again gives the same number and leaves it as it is; making it
/// where it must not exist is then refused. No file changes.
pub proof fn law_created_file_is_a_buffer(
    fs: FsView,
    dir: Ino,
    name: Seq<char>,
    file: usize,
    path: Seq<Seq<char>>,
    now: Timestamp,
)
    requires
        numbers_apart(fs),
        !fs.readonly,
        fs.dir_path(dir) == Some((file, path)),
        canonical_child(path, name) is None,
        !fs.names.contains_key((dir, name)),
        fs.next < u64::MAX,
    ensures
        ({
            let (after, r) = fs.create(dir, name, now);
            let (ino, attr) = r->Ok_0;
            &&& r is Ok
            &&& !fs.scratch.contains_key(ino) && !fs.dirs.contains_key(ino) && !in_files(
                fs.files,
                ino,
            )
            &&& after.contents(ino) == Ok::<Seq<u8>, VfsError>(Seq::empty())
            &&& attr.ino == ino && attr.kind is File && attr.size == 0 && attr.mtime == now
            &&& after.names.contains_key((dir, name)) && after.names[(dir, name)] == ino
            &&& after.files == fs.files && after.dirs == fs.dirs
            &&& after.create(dir, name, now) == (after, r)
            &&& after.create_exclusive(dir, name) == (after, Err::<Ino, VfsError>(VfsError::Exists))
            &&& forall|x: Ino|
                x != ino ==> #[trigger] after.scratch.contains_key(x) == fs.scratch.contains_key(x)
                    && after.scratch[x] == fs.scratch[x]
            &&& fs.create(dir, name, now).0.next > ino
        }),
{
    let (after, r) = fs.create(dir, name, now);
    if in_files(fs.files, fs.next) {
        assert(fs.next < fs.next);
    }
    if fs.owner.contains_key(dir) {
        assert(in_files(fs.files, dir));
    }
    assert(!fs.dirs.contains_key(dir));
    assert(after.owner == fs.owner);
    assert(after.dir_path(dir) == fs.dir_path(dir));
}

/// A file that must not exist is created as an empty buffer with a number that was not given out
/// before, unless something of that name is there.
pub proof fn law_what_is_there_is_not_created(
    fs: FsView,
    dir: Ino,
    name: Seq<char>,
    file: usize,
    path: Seq<Seq<char>>,
)
    requires
        numbers_apart(fs),
        !fs.readonly,
        !fs.dirs.contains_key(dir),
        fs.dir_path(dir) == Some((file, path)),
    ensures
        ({
            let (after, r) = fs.create_exclusive(dir, name);
            let taken = canonical_child(path, name) is Some || fs.files[file as int].child_section(
                path,
                name,
            ) is Some || fs.names.contains_key((dir, name));
            &&& taken ==> r == Err::<Ino, VfsError>(VfsError::Exists) && after == fs
            &&& fs.lookup(dir, name) is Ok ==> taken
            &&& !taken ==> {
                &&& r is Ok
                &&& !fs.scratch.contains_key(r->Ok_0) && !fs.dirs.contains_key(r->Ok_0)
                    && !in_files(fs.files, r->Ok_0)
                &&& after.contents(r->Ok_0) == Ok::<Seq<u8>, VfsError>(Seq::empty())
                &&& after.names == fs.names.insert((dir, name), r->Ok_0)
                &&& after.files == fs.files
            }
        }),
{
    if in_files(fs.files, fs.next) {
        assert(fs.next < fs.next);
    }
}

/// Creating a file that stands for part of the document gives that file, as it is.
pub proof fn law_files_of_the_document_are_not_created(
    fs: FsView,
    dir: Ino,
    name: Seq<char>,
    file: usize,
    path: Seq<Seq<char>>,
    now: Timestamp,
)
    requires
        fs.wf(),
        numbers_apart(fs),
        !fs.readonly,
        fs.dir_path(dir) == Some((file, path)),
        canonical_child(path, name) is Some,
    ensures
        ({
            let (after, r) = fs.create(dir, name, now);
            &&& after == fs
            &&& match fs.lookup(dir, name) {
                Ok(ino) => r is Ok && (r->Ok_0).0 == ino && fs.getattr(ino, now) == Ok::<
                    FileAttr,
                    VfsError,
                >((r->Ok_0).1),
                Err(_) => r is Err && r->Err_0 is Io,
            }
        }),
{
    if fs.dirs.contains_key(dir) {
        lemma_fixed_directories_are_no_entries(fs, dir);
    }
    assert(fs.owner[dir] < fs.files.len());
    let p = canonical_child(path, name)->0;
    if fs.files[file as int].inodes.index.inos.contains_key(p) {
        lemma_reported(fs, file, p, now);
    }
}

/// A buffer that is removed is gone, under its name and under its number, and nothing else changes.
pub proof fn law_removed_buffer_is_gone(fs: FsView, dir: Ino, name: Seq<char>, now: Timestamp)
    requires
        fs.wf(),
        numbers_apart(fs),
        !fs.readonly,
        fs.names.contains_key((dir, name)),
        fs.scratch.contains_key(fs.names[(dir, name)]),
    ensures
        ({
            let ino = fs.names[(dir, name)];
            let (after, step) = fs.remove(dir, name, now);
            &&& step == StepView::Finished(Ok(Reply::Done))
            &&& !after.names.contains_key((dir, name))
            &&& after.contents(ino) == Err::<Seq<u8>, VfsError>(VfsError::NotFound)
            &&& after.files == fs.files && after.dirs == fs.dirs && after.owner == fs.owner
            &&& forall|x: Ino|
                x != ino ==> #[trigger] after.scratch.contains_key(x) == fs.scratch.contains_key(x)
                    && after.scratch[x] == fs.scratch[x]
            &&& forall|d: Ino, n: Seq<char>|
                (d, n) != (dir, name) ==> #[trigger] after.names.contains_key((d, n))
                    == fs.names.contains_key((d, n)) && after.names[(d, n)] == fs.names[(d, n)]
        }),
{
    let ino = fs.names[(dir, name)];
    if fs.owner.contains_key(ino) {
        assert(in_files(fs.files, ino));
    }
}

/// In a directory above the files a file that must not exist is created as an empty buffer, unless an
/// entry of that name is there; otherwise nothing is created there, nor in anything else that is no
/// directory of a file.
pub proof fn law_what_is_created_above_the_files(
    fs: FsView,
    dir: Ino,
    name: Seq<char>,
    now: Timestamp,
)
    requires
        numbers_apart(fs),
        !fs.readonly,
        fs.dir_path(dir) is None,
    ensures
        fs.create(dir, name, now).0 == fs,
        fs.create(dir, name, now).1 is Err,
        (fs.create(dir, name, now).1)->Err_0 == VfsError::NotFound,
        !fs.dirs.contains_key(dir) ==> fs.create_exclusive(dir, name) == (
            fs,
            Err::<Ino, VfsError>(VfsError::NotFound),
        ),
        fs.dirs.contains_key(dir) && fs.lookup(dir, name) is Ok ==> fs.create_exclusive(dir, name)
            == (fs, Err::<Ino, VfsError>(VfsError::Exists)),
        fs.dirs.contains_key(dir) && fs.lookup(dir, name) is Err ==> ({
            let (after, r) = fs.create_exclusive(dir, name);
            &&& r is Ok
            &&& !fs.scratch.contains_key(r->Ok_0) && !fs.dirs.contains_key(r->Ok_0) && !in_files(
                fs.files,
                r->Ok_0,
            )
            &&& after.contents(r->Ok_0) == Ok::<Seq<u8>, VfsError>(Seq::empty())
            &&& after.names == fs.names.insert((dir, name), r->Ok_0)
            &&& after.files == fs.files
        }),
{
    if in_files(fs.files, fs.next) {
        assert(fs.next < fs.next);
    }
}

/// Nothing is renamed from or to anything that is no directory of a file, but buffers.
pub proof fn law_renames_are_within_files(
    fs: FsView,
    from: Ino,
    name: Seq<char>,
    to: Ino,
    new_name: Seq<char>,
    now: Timestamp,
)
    requires
        !fs.readonly,
        fs.dir_path(to) is None || (fs.dir_path(from) is None && from != to && !fs.names.contains_key(
            (from, name),
        )),
    ensures
        fs.rename(from, name, to, new_name, now) == (fs, StepView::Finished(Err(VfsError::NotFound))),
{
}

/// How it is told that something is not there: a name that is not found in a directory is not found,
/// and what is no directory has no entries and nothing above it; a number that stands for nothing cannot
/// be read.
pub proof fn law_how_it_is_told_that_nothing_is_there(
    fs: FsView,
    ino: Ino,
    name: Seq<char>,
    offset: int,
    count: int,
    now: Timestamp,
)
    ensures
        ({
            let is_dir = fs.dirs.contains_key(ino) || fs.dir_path(ino) is Some;
            &&& is_dir ==> fs.lookup(ino, name) is Ok || fs.lookup(ino, name) == Err::<
                Ino,
                VfsError,
            >(VfsError::NotFound)
            &&& !is_dir ==> fs.lookup(ino, name) == Err::<Ino, VfsError>(VfsError::NotDir)
            &&& !is_dir ==> fs.parent_of(ino) == Err::<Ino, VfsError>(VfsError::NotDir)
            &&& is_dir ==> fs.parent_of(ino) is Ok
            &&& !is_dir ==> fs.entries(ino, now) == Err::<Seq<DirEntryView>, VfsError>(
                VfsError::NotDir,
            )
        }),
        !fs.scratch.contains_key(ino) && fs.path_for_ino(ino) is None ==> fs.read(ino, offset, count)
            == Err::<(Seq<u8>, bool), VfsError>(VfsError::NotFound),
        !fs.scratch.contains_key(ino) && fs.dir_path(ino) is Some ==> fs.read(ino, offset, count)
            == Err::<(Seq<u8>, bool), VfsError>(VfsError::IsDir),
{
}

} // verus!
