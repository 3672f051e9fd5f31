//! What holds of every mount.
use vstd::prelude::*;

use crate::block::{rendered, BlockView};
use crate::bytes::{spliced, text_of};
use crate::fs::{save_plan, SavePlanView};
use crate::inode::PathView;
use crate::mount::FileView;
use crate::numbering::{in_step, law_root_keeps_its_numbers};
use crate::section::tree_of;
use crate::state::{
    canonical_child, entry_index, page, page_start, Edit, FsView, NextView, StepView,
};
use crate::vfs::{DirEntryView, Ino, Timestamp, VfsError};

verus! {

/// A read-only mount refuses every request to change something, and nothing changes.
pub proof fn law_read_only_mount_refuses_changes(
    fs: FsView,
    a: Ino,
    a_name: Seq<char>,
    b: Ino,
    b_name: Seq<char>,
    offset: int,
    data: Seq<u8>,
    now: Timestamp,
)
    requires
        fs.readonly,
    ensures
        fs.write(a, offset, data, now) == fs.refused(VfsError::ReadOnly),
        fs.truncate(a, now) == fs.refused(VfsError::ReadOnly),
        fs.mkdir(a, a_name, now) == fs.refused(VfsError::ReadOnly),
        fs.remove(a, a_name, now) == fs.refused(VfsError::ReadOnly),
        fs.rename(a, a_name, b, b_name, now) == fs.refused(VfsError::ReadOnly),
        fs.create(a, a_name, now).0 == fs,
        fs.create(a, a_name, now).1 is Err,
        (fs.create(a, a_name, now).1)->Err_0 == VfsError::ReadOnly,
        fs.create_exclusive(a, a_name) == (fs, Err::<Ino, VfsError>(VfsError::ReadOnly)),
{
}

/// The directories above the files are fixed: none can be made or removed in them, and nothing but a
/// buffer moves into them or out of them.
pub proof fn law_directories_above_files_are_fixed(
    fs: FsView,
    dir: Ino,
    name: Seq<char>,
    other: Ino,
    other_name: Seq<char>,
    now: Timestamp,
)
    requires
        !fs.readonly,
        fs.dirs.contains_key(dir),
        fs.path_for_ino(dir) is None,
        !fs.names.contains_key((dir, name)),
        dir != other,
    ensures
        fs.mkdir(dir, name, now) == fs.refused(VfsError::PermissionDenied),
        fs.remove(dir, name, now) == fs.refused(VfsError::PermissionDenied),
        fs.rename(other, other_name, dir, name, now) == fs.refused(VfsError::NotFound),
        fs.rename(dir, name, other, other_name, now) == fs.refused(VfsError::NotFound),
{
}

/// Whether a request was refused.
pub open spec fn is_refusal(step: StepView) -> bool {
    match step {
        StepView::Finished(Err(_)) => true,
        _ => false,
    }
}

/// An edit that is refused leaves the mount as it was.
proof fn lemma_refused_edit(fs: FsView, file: usize, edit: Edit, next: NextView, now: Timestamp)
    ensures
        is_refusal(fs.edited(file, edit, next, now).1) ==> fs.edited(file, edit, next, now).0
            == fs,
{
}

proof fn lemma_refused_write(fs: FsView, a: Ino, offset: int, data: Seq<u8>, now: Timestamp)
    ensures
        is_refusal(fs.write(a, offset, data, now).1) ==> fs.write(a, offset, data, now).0 == fs,
{
    if let Some((file, path)) = fs.path_for_ino(a) {
        let f = fs.files[file as int];
        if let Ok(bytes) = f.bytes_for(path) {
            lemma_refused_edit(
                fs,
                file,
                f.file_edit(path, text_of(spliced(bytes, offset, data))),
                NextView::Attr { ino: a, entry: path },
                now,
            );
        }
    }
}

proof fn lemma_refused_truncate(fs: FsView, a: Ino, now: Timestamp)
    ensures
        is_refusal(fs.truncate(a, now).1) ==> fs.truncate(a, now).0 == fs,
{
    if let Some((file, path)) = fs.path_for_ino(a) {
        lemma_refused_edit(
            fs,
            file,
            fs.files[file as int].file_edit(path, Seq::empty()),
            NextView::Stat { ino: a },
            now,
        );
    }
}

proof fn lemma_refused_mkdir(fs: FsView, a: Ino, name: Seq<char>, now: Timestamp)
    ensures
        is_refusal(fs.mkdir(a, name, now).1) ==> fs.mkdir(a, name, now).0 == fs,
{
    if let Some((file, path)) = fs.dir_path(a) {
        lemma_refused_edit(
            fs,
            file,
            fs.files[file as int].mkdir_edit(path, name),
            NextView::NewDir { path: path.push(name) },
            now,
        );
    }
}

proof fn lemma_refused_remove(fs: FsView, a: Ino, name: Seq<char>, now: Timestamp)
    ensures
        is_refusal(fs.remove(a, name, now).1) ==> fs.remove(a, name, now).0 == fs,
{
    if let Some((file, path)) = fs.dir_path(a) {
        let f = fs.files[file as int];
        let edit = match canonical_child(path, name) {
            Some(p) => f.file_edit(p, Seq::empty()),
            None => f.rmdir_edit(path, name),
        };
        lemma_refused_edit(fs, file, edit, NextView::Finish, now);
    }
}

proof fn lemma_refused_adoption(
    fs: FsView,
    from: Ino,
    from_name: Seq<char>,
    file: usize,
    path: PathView,
    now: Timestamp,
)
    ensures
        is_refusal(fs.adopted(from, from_name, file, path, now).1) ==> fs.adopted(
            from,
            from_name,
            file,
            path,
            now,
        ).0 == fs,
{
    let f = fs.files[file as int];
    if fs.names.contains_key((from, from_name)) {
        if let Some(bytes) = fs.scratch.get(fs.names[(from, from_name)]) {
            lemma_refused_edit(
                fs,
                file,
                f.file_edit(path, text_of(bytes)),
                NextView::Forget { from, name: from_name },
                now,
            );
        }
    } else if let Some((source_file, source_path)) = fs.dir_path(from) {
        lemma_refused_edit(
            fs,
            file,
            f.file_edit(path, text_of(f.section_bytes(source_path))),
            NextView::ClearSource { path: source_path, from, name: from_name },
            now,
        );
    }
}

proof fn lemma_refused_move(
    fs: FsView,
    from: Ino,
    from_name: Seq<char>,
    to: Ino,
    to_name: Seq<char>,
    file: usize,
    path: Seq<Seq<char>>,
    now: Timestamp,
)
    ensures
        is_refusal(fs.moved(from, from_name, to, to_name, file, path, now).1) ==> fs.moved(
            from,
            from_name,
            to,
            to_name,
            file,
            path,
            now,
        ).0 == fs,
{
    let f = fs.files[file as int];
    if from == to {
        lemma_refused_edit(
            fs,
            file,
            f.rename_edit(path, from_name, to_name),
            NextView::Finish,
            now,
        );
    } else if let Some((source_file, source_path)) = fs.dir_path(from) {
        lemma_refused_edit(
            fs,
            file,
            f.move_edit(source_path, from_name, path, to_name),
            NextView::Finish,
            now,
        );
    }
}

proof fn lemma_refused_rename(
    fs: FsView,
    from: Ino,
    from_name: Seq<char>,
    to: Ino,
    to_name: Seq<char>,
    now: Timestamp,
)
    ensures
        is_refusal(fs.rename(from, from_name, to, to_name, now).1) ==> fs.rename(
            from,
            from_name,
            to,
            to_name,
            now,
        ).0 == fs,
{
    if let Some((file, path)) = fs.dir_path(to) {
        match canonical_child(path, to_name) {
            Some(p) => lemma_refused_adoption(fs, from, from_name, file, p, now),
            None => lemma_refused_move(fs, from, from_name, to, to_name, file, path, now),
        }
    }
}

proof fn lemma_refused_create(fs: FsView, a: Ino, name: Seq<char>, now: Timestamp)
    ensures
        fs.create(a, name, now).1 is Err ==> fs.create(a, name, now).0 == fs,
        fs.create_exclusive(a, name).1 is Err ==> fs.create_exclusive(a, name).0 == fs,
{
}

/// A request that is refused at once leaves the mount as it was.
pub proof fn law_refused_request_changes_nothing(
    fs: FsView,
    a: Ino,
    a_name: Seq<char>,
    b: Ino,
    b_name: Seq<char>,
    offset: int,
    data: Seq<u8>,
    now: Timestamp,
)
    ensures
        is_refusal(fs.write(a, offset, data, now).1) ==> fs.write(a, offset, data, now).0 == fs,
        is_refusal(fs.truncate(a, now).1) ==> fs.truncate(a, now).0 == fs,
        is_refusal(fs.mkdir(a, a_name, now).1) ==> fs.mkdir(a, a_name, now).0 == fs,
        is_refusal(fs.remove(a, a_name, now).1) ==> fs.remove(a, a_name, now).0 == fs,
        is_refusal(fs.rename(a, a_name, b, b_name, now).1) ==> fs.rename(
            a,
            a_name,
            b,
            b_name,
            now,
        ).0 == fs,
        fs.create(a, a_name, now).1 is Err ==> fs.create(a, a_name, now).0 == fs,
        fs.create_exclusive(a, a_name).1 is Err ==> fs.create_exclusive(a, a_name).0 == fs,
{
    lemma_refused_write(fs, a, offset, data, now);
    lemma_refused_truncate(fs, a, now);
    lemma_refused_mkdir(fs, a, a_name, now);
    lemma_refused_remove(fs, a, a_name, now);
    lemma_refused_rename(fs, a, a_name, b, b_name, now);
    lemma_refused_create(fs, a, a_name, now);
}

/// Whether a request has `file` saved.
pub open spec fn saves(step: StepView, file: int) -> bool {
    match step {
        StepView::Save { file: f, .. } => f == file,
        StepView::Finished(_) => false,
    }
}

/// Whether a request changed no file but the one that has to be saved, and nothing else but buffers
/// and numbers. Each file stays where it is in the mount, under the number that it has there.
pub open spec fn one_file_changed(fs: FsView, after: FsView, step: StepView) -> bool {
    &&& after == (FsView {
        files: after.files,
        owner: after.owner,
        next: after.next,
        scratch: after.scratch,
        names: after.names,
        ..fs
    })
    &&& after.files.len() == fs.files.len()
    &&& forall|i: int|
        0 <= i < fs.files.len() && !saves(step, i) ==> #[trigger] after.files[i] == fs.files[i]
    &&& forall|i: int|
        0 <= i < fs.files.len() ==> (#[trigger] after.files[i]).inodes.shadow.dir
            == fs.files[i].inodes.shadow.dir
}

proof fn lemma_rebuilt_one_file(
    fs: FsView,
    file: usize,
    document: Seq<BlockView>,
    next: NextView,
)
    requires
        fs.wf(),
        file < fs.files.len(),
    ensures
        one_file_changed(fs, fs.rebuilt(file, document), StepView::Save { file, next }),
{
    let f = fs.files[file as int];
    assert(in_step(f.inodes, f.tree));
    law_root_keeps_its_numbers(f.inodes, fs.next, tree_of(document));
}

proof fn lemma_edited_one_file(
    fs: FsView,
    file: usize,
    edit: Edit,
    next: NextView,
    now: Timestamp,
)
    requires
        fs.wf(),
        file < fs.files.len(),
    ensures
        one_file_changed(
            fs,
            fs.edited(file, edit, next, now).0,
            fs.edited(file, edit, next, now).1,
        ),
{
    if edit is Ok && edit->Ok_0 is Some {
        lemma_rebuilt_one_file(fs, file, edit->Ok_0->0, next);
    } else if edit is Ok {
        law_resumed_requests_change_one_file(fs, file, next, now);
    }
}

/// Going on with a request changes no file but the one that has to be saved.
pub proof fn law_resumed_requests_change_one_file(
    fs: FsView,
    file: usize,
    next: NextView,
    now: Timestamp,
)
    requires
        fs.wf(),
        file < fs.files.len(),
    ensures
        one_file_changed(fs, fs.resumed(file, next, now).0, fs.resumed(file, next, now).1),
{
    if let NextView::ClearSource { path, from, name } = next {
        let edit = fs.files[file as int].content_edit(path, Seq::empty());
        if edit is Ok && edit->Ok_0 is Some {
            lemma_rebuilt_one_file(fs, file, edit->Ok_0->0, NextView::Forget { from, name });
        }
    }
}

proof fn lemma_write_one_file(fs: FsView, a: Ino, offset: int, data: Seq<u8>, now: Timestamp)
    requires
        fs.wf(),
    ensures
        one_file_changed(fs, fs.write(a, offset, data, now).0, fs.write(a, offset, data, now).1),
        one_file_changed(fs, fs.truncate(a, now).0, fs.truncate(a, now).1),
{
    if let Some((file, path)) = fs.path_for_ino(a) {
        assert(fs.owner[a] < fs.files.len());
        let f = fs.files[file as int];
        lemma_edited_one_file(
            fs,
            file,
            f.file_edit(path, Seq::empty()),
            NextView::Stat { ino: a },
            now,
        );
        if let Ok(bytes) = f.bytes_for(path) {
            lemma_edited_one_file(
                fs,
                file,
                f.file_edit(path, text_of(spliced(bytes, offset, data))),
                NextView::Attr { ino: a, entry: path },
                now,
            );
        }
    }
}

proof fn lemma_mkdir_one_file(fs: FsView, a: Ino, name: Seq<char>, now: Timestamp)
    requires
        fs.wf(),
    ensures
        one_file_changed(fs, fs.mkdir(a, name, now).0, fs.mkdir(a, name, now).1),
        one_file_changed(fs, fs.remove(a, name, now).0, fs.remove(a, name, now).1),
{
    if let Some((file, path)) = fs.dir_path(a) {
        assert(fs.owner[a] < fs.files.len());
        let f = fs.files[file as int];
        lemma_edited_one_file(
            fs,
            file,
            f.mkdir_edit(path, name),
            NextView::NewDir { path: path.push(name) },
            now,
        );
        let edit = match canonical_child(path, name) {
            Some(p) => f.file_edit(p, Seq::empty()),
            None => f.rmdir_edit(path, name),
        };
        lemma_edited_one_file(fs, file, edit, NextView::Finish, now);
    }
}

proof fn lemma_adoption_one_file(
    fs: FsView,
    from: Ino,
    name: Seq<char>,
    file: usize,
    path: PathView,
    now: Timestamp,
)
    requires
        fs.wf(),
        file < fs.files.len(),
    ensures
        one_file_changed(
            fs,
            fs.adopted(from, name, file, path, now).0,
            fs.adopted(from, name, file, path, now).1,
        ),
{
    let f = fs.files[file as int];
    if fs.names.contains_key((from, name)) {
        if let Some(bytes) = fs.scratch.get(fs.names[(from, name)]) {
            lemma_edited_one_file(
                fs,
                file,
                f.file_edit(path, text_of(bytes)),
                NextView::Forget { from, name },
                now,
            );
        }
    } else if let Some((_, source)) = fs.dir_path(from) {
        lemma_edited_one_file(
            fs,
            file,
            f.file_edit(path, text_of(f.section_bytes(source))),
            NextView::ClearSource { path: source, from, name },
            now,
        );
    }
}

proof fn lemma_move_one_file(
    fs: FsView,
    from: Ino,
    name: Seq<char>,
    to: Ino,
    to_name: Seq<char>,
    file: usize,
    path: Seq<Seq<char>>,
    now: Timestamp,
)
    requires
        fs.wf(),
        file < fs.files.len(),
    ensures
        one_file_changed(
            fs,
            fs.moved(from, name, to, to_name, file, path, now).0,
            fs.moved(from, name, to, to_name, file, path, now).1,
        ),
{
    let f = fs.files[file as int];
    lemma_edited_one_file(
        fs,
        file,
        f.rename_edit(path, name, to_name),
        NextView::Finish,
        now,
    );
    if let Some((_, source)) = fs.dir_path(from) {
        lemma_edited_one_file(
            fs,
            file,
            f.move_edit(source, name, path, to_name),
            NextView::Finish,
            now,
        );
    }
}

/// A request changes no file but the one that has to be saved, and leaves every file where it is in
/// the mount.
pub proof fn law_requests_change_one_file(
    fs: FsView,
    a: Ino,
    a_name: Seq<char>,
    b: Ino,
    b_name: Seq<char>,
    offset: int,
    data: Seq<u8>,
    now: Timestamp,
)
    requires
        fs.wf(),
    ensures
        one_file_changed(fs, fs.write(a, offset, data, now).0, fs.write(a, offset, data, now).1),
        one_file_changed(fs, fs.truncate(a, now).0, fs.truncate(a, now).1),
        one_file_changed(fs, fs.mkdir(a, a_name, now).0, fs.mkdir(a, a_name, now).1),
        one_file_changed(fs, fs.remove(a, a_name, now).0, fs.remove(a, a_name, now).1),
        one_file_changed(
            fs,
            fs.rename(a, a_name, b, b_name, now).0,
            fs.rename(a, a_name, b, b_name, now).1,
        ),
        fs.create(a, a_name, now).0.files == fs.files,
        fs.create_exclusive(a, a_name).0.files == fs.files,
{
    lemma_write_one_file(fs, a, offset, data, now);
    lemma_mkdir_one_file(fs, a, a_name, now);
    if let Some((file, path)) = fs.dir_path(b) {
        assert(fs.owner[b] < fs.files.len());
        match canonical_child(path, b_name) {
            Some(p) => lemma_adoption_one_file(fs, a, a_name, file, p, now),
            None => lemma_move_one_file(fs, a, a_name, b, b_name, file, path, now),
        }
    }
}

/// Once a file was saved it needs no saving, until its document changes.
pub proof fn law_saved_file_is_up_to_date(
    fs: FsView,
    file: usize,
    mtime: Option<Timestamp>,
    current: Option<Timestamp>,
)
    requires
        file < fs.files.len(),
    ensures
        save_plan(
            fs.saved(file, rendered(fs.files[file as int].document), mtime).files[file as int],
            current,
        ) == SavePlanView::UpToDate,
{
}

/// A file that was changed on disk since it was last read is never overwritten, and one that is as
/// it should be is never written.
pub proof fn law_newer_file_is_not_overwritten(f: FileView, current: Option<Timestamp>)
    ensures
        save_plan(f, current) is Write ==> {
            &&& !(f.known_mtime is Some && current is Some && current->0.after(f.known_mtime->0))
            &&& rendered(f.document) != f.persisted
            &&& save_plan(f, current) == SavePlanView::Write(rendered(f.document))
        },
        f.known_mtime is Some && current is Some && current->0.after(f.known_mtime->0)
            && rendered(f.document) != f.persisted ==> save_plan(f, current) is Conflict,
{
}

/// What was written into a buffer is read back.
pub proof fn law_buffer_gives_back_what_was_written(
    fs: FsView,
    ino: Ino,
    data: Seq<u8>,
    now: Timestamp,
)
    requires
        !fs.readonly,
        fs.scratch.contains_key(ino),
    ensures
        ({
            let emptied = fs.truncate(ino, now).0;
            let written = emptied.write(ino, 0, data, now).0;
            &&& emptied.contents(ino) == Ok::<Seq<u8>, VfsError>(Seq::empty())
            &&& written.contents(ino) == Ok::<Seq<u8>, VfsError>(data)
        }),
{
    let emptied = fs.truncate(ino, now).0;
    assert(spliced(Seq::empty(), 0, data) =~= data);
}

/// What a client sees that lists a directory page by page, for at most `n` pages: it asks for each
/// page behind the last entry of the one before, until the last page.
pub open spec fn listed(entries: Seq<DirEntryView>, start_after: Ino, max: nat, n: nat) -> Seq<
    DirEntryView,
>
    decreases n,
{
    if n == 0 {
        Seq::empty()
    } else {
        let (first, end) = page(entries, start_after, max);
        if end {
            first
        } else {
            first + listed(entries, first.last().ino, max, (n - 1) as nat)
        }
    }
}

/// Whether the entries have different numbers, none of them 0.
pub open spec fn distinct_entries(entries: Seq<DirEntryView>) -> bool {
    &&& forall|i: int| 0 <= i < entries.len() ==> (#[trigger] entries[i]).ino != 0
    &&& forall|i: int, j: int|
        0 <= i < j < entries.len() ==> (#[trigger] entries[i]).ino != (#[trigger] entries[j]).ino
}

proof fn lemma_entry_index(entries: Seq<DirEntryView>, i: int)
    requires
        0 <= i < entries.len(),
        forall|j: int| 0 <= j < i ==> (#[trigger] entries[j]).ino != entries[i].ino,
    ensures
        entry_index(entries, entries[i].ino) == Some(i),
    decreases i,
{
    if i > 0 {
        assert(entries[0].ino != entries[i].ino);
        let rest = entries.drop_first();
        assert(rest[i - 1] == entries[i]);
        assert forall|j: int| 0 <= j < i - 1 implies (#[trigger] rest[j]).ino != rest[i - 1].ino by {
            assert(rest[j] == entries[j + 1]);
        }
        lemma_entry_index(rest, i - 1);
    }
}

proof fn lemma_listed_from(
    entries: Seq<DirEntryView>,
    start_after: Ino,
    max: nat,
    n: nat,
)
    requires
        distinct_entries(entries),
        start_after == 0 || exists|i: int|
            0 <= i < entries.len() && (#[trigger] entries[i]).ino == start_after,
        n > entries.len() - page_start(entries, start_after),
    ensures
        0 <= page_start(entries, start_after) <= entries.len(),
        listed(entries, start_after, max, n) == entries.skip(page_start(entries, start_after)),
    decreases n,
{
    if start_after != 0 {
        let i = choose|i: int|
            0 <= i < entries.len() && (#[trigger] entries[i]).ino == start_after;
        lemma_entry_index(entries, i);
    }
    let start = page_start(entries, start_after);
    let (first, end) = page(entries, start_after, max);
    if !end {
        let last = start + first.len() - 1;
        assert(first.last() == entries[last]);
        lemma_entry_index(entries, last);
        let cookie = first.last().ino;
        assert(page_start(entries, cookie) == last + 1);
        lemma_listed_from(entries, cookie, max, (n - 1) as nat);
        assert(first + entries.skip(last + 1) =~= entries.skip(start));
    }
}

/// Listing a directory page by page shows every entry exactly once, in order, whatever the size of
/// the pages.
pub proof fn law_pages_show_every_entry_once(entries: Seq<DirEntryView>, max: nat)
    requires
        distinct_entries(entries),
    ensures
        listed(entries, 0, max, entries.len() + 1) == entries,
{
    lemma_listed_from(entries, 0, max, entries.len() + 1);
    assert(entries.skip(0) =~= entries);
}

} // verus!
