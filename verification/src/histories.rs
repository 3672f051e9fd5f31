//! What holds of a mount whatever requests it has answered.
use vstd::prelude::*;

use crate::block::BlockView;
use crate::bytes::{spliced, text_of};
use crate::fs::lemma_super_dir_at;
use crate::guarantees::{law_requests_change_one_file, law_resumed_requests_change_one_file};
use crate::inode::{empty_table, ROOT_INO};
use crate::listing::{
    all_names_differ, law_added_file_has_a_name_of_its_own, law_fresh_mount_has_different_names,
    law_requests_leave_names_different,
};
use crate::mount::{shown_tree, SourceView};
use crate::numbering::{in_step, law_synced_table_is_in_step, proper_table, table_uses};
use crate::parents::{
    all_lead_up, law_added_file_leads_up, law_directory_above_the_files_is_where_it_was_looked_up,
    law_fresh_mount_leads_up, law_requests_leave_directories_leading_up,
};
use crate::section::tree_of;
use crate::state::{
    bare_mount, canonical_child, leaves_of, mount_of, roots_of, with_all_unplaced, with_unplaced, Edit,
    FsView, NextView,
};
use crate::supers::{lemma_laid_out_fresh, Layout};
use crate::uniqueness::{
    in_files, law_added_file_keeps_numbers_apart, law_entries_are_the_numbers_in_use,
    law_fresh_mount_has_its_numbers_apart, law_requests_keep_numbers_apart,
    law_resumed_requests_keep_numbers_apart, lemma_all_unplaced_next, lemma_super_dirs_fresh,
    numbers_apart,
};
use crate::vfs::{FileKind, Ino, Timestamp, VfsError};
use crate::visibility::{law_directory_above_is_where_it_was_looked_up, law_numbers_lead_back};

verus! {

/// What may happen to a mount: a request that may change it, going on with one, taking note that a
/// file was saved, and the addition of a file.
pub enum Event {
    Write { ino: Ino, offset: int, data: Seq<u8> },
    Truncate { ino: Ino },
    SetSize { ino: Ino, size: Option<u64> },
    Create { parent: Ino, name: Seq<char> },
    CreateExclusive { parent: Ino, name: Seq<char> },
    Mkdir { parent: Ino, name: Seq<char> },
    Remove { parent: Ino, name: Seq<char> },
    Rename { from: Ino, name: Seq<char>, to: Ino, new_name: Seq<char> },
    Resume { file: usize, next: NextView },
    RecordSaved { file: usize, text: Seq<char>, mtime: Option<Timestamp> },
    WatchAdd { source: SourceView },
}

/// The mount after an event. Only a file that is there can be saved, only a writable mount goes on with
/// requests, and a file with hidden sections is added to a read-only mount only.
pub open spec fn after_event(fs: FsView, event: Event, now: Timestamp) -> FsView {
    match event {
        Event::Write { ino, offset, data } => fs.write(ino, offset, data, now).0,
        Event::Truncate { ino } => fs.truncate(ino, now).0,
        Event::SetSize { ino, size } => fs.set_size(ino, size, now).0,
        Event::Create { parent, name } => fs.create(parent, name, now).0,
        Event::CreateExclusive { parent, name } => fs.create_exclusive(parent, name).0,
        Event::Mkdir { parent, name } => fs.mkdir(parent, name, now).0,
        Event::Remove { parent, name } => fs.remove(parent, name, now).0,
        Event::Rename { from, name, to, new_name } => fs.rename(from, name, to, new_name, now).0,
        Event::Resume { file, next } => if !fs.readonly && file < fs.files.len() {
            fs.resumed(file, next, now).0
        } else {
            fs
        },
        Event::RecordSaved { file, text, mtime } => if file < fs.files.len() {
            fs.saved(file, text, mtime)
        } else {
            fs
        },
        Event::WatchAdd { source } => if source.shown is Some ==> fs.readonly {
            fs.with_file(source)
        } else {
            fs
        },
    }
}

/// The mount after all these events.
pub open spec fn after_events(fs: FsView, events: Seq<(Event, Timestamp)>) -> FsView
    decreases events.len(),
{
    if events.len() == 0 {
        fs
    } else {
        let (event, now) = events.last();
        after_event(after_events(fs, events.drop_last()), event, now)
    }
}

/// What holds of a mount as long as the numbers do not run out: no number stands for two entries, every
/// directory leads to the one that it is an entry of, and entries of one directory above the files
/// differ in their names.
pub open spec fn sound(fs: FsView) -> bool {
    &&& fs.wf()
    &&& numbers_apart(fs)
    &&& all_lead_up(fs)
    &&& all_names_differ(fs.dirs)
}

/// Whether the numbers handed out so far stay handed out, and the mount is well-formed.
pub(crate) open spec fn goes_on(fs: FsView, after: FsView) -> bool {
    &&& after.wf()
    &&& fs.next <= after.next
    &&& after.files.len() <= fs.files.len() + 1
}

proof fn lemma_rebuilt_goes_on(fs: FsView, file: usize, document: Seq<BlockView>)
    requires
        fs.wf(),
        !fs.readonly,
        file < fs.files.len(),
    ensures
        goes_on(fs, fs.rebuilt(file, document)),
{
    let after = fs.rebuilt(file, document);
    law_synced_table_is_in_step(fs.files[file as int].inodes, fs.next, tree_of(document));
    assert forall|i: int| 0 <= i < after.files.len() implies (#[trigger] after.files[i]).current()
        && in_step(after.files[i].inodes, after.files[i].tree) && after.files[i].shown is None by {
        assert(fs.files[i].shown is None);
        if i != file {
            assert(after.files[i] == fs.files[i]);
        }
    }
}

proof fn lemma_resumed_goes_on(fs: FsView, file: usize, next: NextView, now: Timestamp)
    requires
        fs.wf(),
        !fs.readonly,
        file < fs.files.len(),
    ensures
        goes_on(fs, fs.resumed(file, next, now).0),
{
    if let NextView::ClearSource { path, from, name } = next {
        if let Ok(Some(document)) = fs.files[file as int].content_edit(path, Seq::empty()) {
            lemma_rebuilt_goes_on(fs, file, document);
        }
    }
}

proof fn lemma_edited_goes_on(fs: FsView, file: usize, edit: Edit, next: NextView, now: Timestamp)
    requires
        fs.wf(),
        !fs.readonly,
        file < fs.files.len(),
    ensures
        goes_on(fs, fs.edited(file, edit, next, now).0),
{
    match edit {
        Ok(Some(document)) => lemma_rebuilt_goes_on(fs, file, document),
        Ok(None) => lemma_resumed_goes_on(fs, file, next, now),
        Err(_) => {},
    }
}

proof fn lemma_renamed_goes_on(
    fs: FsView,
    from: Ino,
    name: Seq<char>,
    to: Ino,
    new_name: Seq<char>,
    now: Timestamp,
)
    requires
        fs.wf(),
    ensures
        goes_on(fs, fs.rename(from, name, to, new_name, now).0),
{
    if !fs.readonly {
        if let Some((file, path)) = fs.dir_path(to) {
            assert(fs.owner[to] < fs.files.len());
            let f = fs.files[file as int];
            match canonical_child(path, new_name) {
                Some(p) => {
                    if fs.names.contains_key((from, name)) {
                        if let Some(bytes) = fs.scratch.get(fs.names[(from, name)]) {
                            lemma_edited_goes_on(
                                fs,
                                file,
                                f.file_edit(p, text_of(bytes)),
                                NextView::Forget { from, name },
                                now,
                            );
                        }
                    } else if let Some((_, source)) = fs.dir_path(from) {
                        lemma_edited_goes_on(
                            fs,
                            file,
                            f.file_edit(p, text_of(f.section_bytes(source))),
                            NextView::ClearSource { path: source, from, name },
                            now,
                        );
                    }
                },
                None => {
                    lemma_edited_goes_on(
                        fs,
                        file,
                        f.rename_edit(path, name, new_name),
                        NextView::Finish,
                        now,
                    );
                    if let Some((_, source)) = fs.dir_path(from) {
                        lemma_edited_goes_on(
                            fs,
                            file,
                            f.move_edit(source, name, path, new_name),
                            NextView::Finish,
                            now,
                        );
                    }
                },
            }
        }
    }
}

pub(crate) proof fn lemma_added_goes_on(fs: FsView, source: SourceView)
    requires
        fs.wf(),
        source.shown is Some ==> fs.readonly,
        fs.files.len() < usize::MAX,
    ensures
        goes_on(fs, fs.with_file(source)),
{
    if source.mount_path.len() > 0 && !fs.mounted.contains(source.path) {
        let opened_fs = with_unplaced(fs, source);
        let after = fs.with_file(source);
        law_synced_table_is_in_step(
            empty_table(),
            fs.next,
            shown_tree(source.document, source.shown),
        );
        lemma_super_dirs_fresh(
            opened_fs.dirs,
            opened_fs.next,
            source.mount_path.drop_last(),
            ROOT_INO,
        );
        lemma_super_dir_at(
            opened_fs.dirs,
            opened_fs.next,
            source.mount_path.drop_last(),
        );
        assert forall|i: int| 0 <= i < after.files.len() implies (
        #[trigger] after.files[i]).current() && in_step(after.files[i].inodes, after.files[i].tree)
            && (!after.readonly ==> after.files[i].shown is None) by {
            if i < fs.files.len() {
                assert(after.files[i] == fs.files[i]);
            }
        }
    }
}

proof fn lemma_saved_goes_on(fs: FsView, file: usize, text: Seq<char>, mtime: Option<Timestamp>)
    requires
        fs.wf(),
        file < fs.files.len(),
    ensures
        goes_on(fs, fs.saved(file, text, mtime)),
{
    let after = fs.saved(file, text, mtime);
    assert forall|i: int| 0 <= i < after.files.len() implies (#[trigger] after.files[i]).current()
        && in_step(after.files[i].inodes, after.files[i].tree) && after.files[i].shown
        == fs.files[i].shown by {
        assert(fs.files[i].current());
    }
}

proof fn lemma_written_goes_on(fs: FsView, ino: Ino, offset: int, data: Seq<u8>, now: Timestamp)
    requires
        fs.wf(),
    ensures
        goes_on(fs, fs.write(ino, offset, data, now).0),
        goes_on(fs, fs.truncate(ino, now).0),
{
    if let Some((file, path)) = fs.path_for_ino(ino) {
        assert(fs.owner[ino] < fs.files.len());
        let f = fs.files[file as int];
        if !fs.readonly {
            lemma_edited_goes_on(
                fs,
                file,
                f.file_edit(path, Seq::empty()),
                NextView::Stat { ino },
                now,
            );
            if let Ok(bytes) = f.bytes_for(path) {
                lemma_edited_goes_on(
                    fs,
                    file,
                    f.file_edit(path, text_of(spliced(bytes, offset, data))),
                    NextView::Attr { ino, entry: path },
                    now,
                );
            }
        }
    }
}

proof fn lemma_changed_goes_on(fs: FsView, parent: Ino, name: Seq<char>, now: Timestamp)
    requires
        fs.wf(),
    ensures
        goes_on(fs, fs.mkdir(parent, name, now).0),
        goes_on(fs, fs.remove(parent, name, now).0),
{
    if let Some((file, path)) = fs.dir_path(parent) {
        assert(fs.owner[parent] < fs.files.len());
        let f = fs.files[file as int];
        let edit = match canonical_child(path, name) {
            Some(p) => f.file_edit(p, Seq::empty()),
            None => f.rmdir_edit(path, name),
        };
        if !fs.readonly {
            lemma_edited_goes_on(
                fs,
                file,
                f.mkdir_edit(path, name),
                NextView::NewDir { path: path.push(name) },
                now,
            );
            lemma_edited_goes_on(fs, file, edit, NextView::Finish, now);
        }
    }
}

/// After an event a mount is well-formed, and has no fewer numbers handed out.
proof fn lemma_event_goes_on(fs: FsView, event: Event, now: Timestamp)
    requires
        fs.wf(),
        fs.files.len() < usize::MAX,
    ensures
        goes_on(fs, after_event(fs, event, now)),
{
    match event {
        Event::Write { ino, offset, data } => lemma_written_goes_on(fs, ino, offset, data, now),
        Event::Truncate { ino } | Event::SetSize { ino, .. } => {
            lemma_written_goes_on(fs, ino, 0, Seq::empty(), now);
        },
        Event::Mkdir { parent, name } | Event::Remove { parent, name } => {
            lemma_changed_goes_on(fs, parent, name, now);
        },
        Event::Rename { from, name, to, new_name } => {
            lemma_renamed_goes_on(fs, from, name, to, new_name, now);
        },
        Event::Resume { file, next } => {
            if !fs.readonly && file < fs.files.len() {
                lemma_resumed_goes_on(fs, file, next, now);
            }
        },
        Event::RecordSaved { file, text, mtime } => {
            if file < fs.files.len() {
                lemma_saved_goes_on(fs, file, text, mtime);
            }
        },
        Event::WatchAdd { source } => {
            if source.shown is Some ==> fs.readonly {
                lemma_added_goes_on(fs, source);
            }
        },
        Event::Create { .. } | Event::CreateExclusive { .. } => {},
    }
}

proof fn lemma_saved_sound(fs: FsView, file: usize, text: Seq<char>, mtime: Option<Timestamp>)
    requires
        sound(fs),
        file < fs.files.len(),
    ensures
        sound(fs.saved(file, text, mtime)),
{
    let after = fs.saved(file, text, mtime);
    lemma_saved_goes_on(fs, file, text, mtime);
    assert forall|i: int| 0 <= i < fs.files.len() implies #[trigger] after.files[i].inodes
        == fs.files[i].inodes by {}
    assert forall|x: Ino| #[trigger] in_files(after.files, x) == in_files(fs.files, x) by {
        if in_files(after.files, x) {
            let i = choose|i: int|
                0 <= i < after.files.len() && table_uses((#[trigger] after.files[i]).inodes, x);
            assert(table_uses(fs.files[i].inodes, x));
        }
        if in_files(fs.files, x) {
            let i = choose|i: int|
                0 <= i < fs.files.len() && table_uses((#[trigger] fs.files[i]).inodes, x);
            assert(table_uses(after.files[i].inodes, x));
        }
    }
    assert forall|i: int| 0 <= i < after.files.len() implies proper_table(
        (#[trigger] after.files[i]).inodes,
    ) by {
        assert(proper_table(fs.files[i].inodes));
    }
    assert forall|i: int, j: int, x: Ino| 0 <= i < j < after.files.len() implies !(
    #[trigger] table_uses(after.files[i].inodes, x) && #[trigger] table_uses(
        after.files[j].inodes,
        x,
    )) by {
        assert(!(table_uses(fs.files[i].inodes, x) && table_uses(fs.files[j].inodes, x)));
    }
    assert(roots_of(after.files) =~= roots_of(fs.files));
}

/// An event leaves a mount sound, as long as the numbers do not run out.
pub proof fn law_events_leave_a_mount_sound(fs: FsView, event: Event, now: Timestamp)
    requires
        sound(fs),
        fs.files.len() < usize::MAX,
        after_event(fs, event, now).next < u64::MAX,
    ensures
        sound(after_event(fs, event, now)),
{
    let after = after_event(fs, event, now);
    lemma_event_goes_on(fs, event, now);
    let none: Seq<char> = Seq::empty();
    match event {
        Event::Write { ino, offset, data } => {
            law_requests_keep_numbers_apart(fs, ino, none, ino, none, offset, data, now);
            law_requests_change_one_file(fs, ino, none, ino, none, offset, data, now);
            let step = fs.write(ino, offset, data, now).1;
            law_requests_leave_directories_leading_up(fs, after, step);
            law_requests_leave_names_different(fs, after, step);
        },
        Event::Truncate { ino } | Event::SetSize { ino, .. } => {
            law_requests_keep_numbers_apart(fs, ino, none, ino, none, 0, Seq::empty(), now);
            law_requests_change_one_file(fs, ino, none, ino, none, 0, Seq::empty(), now);
            let (cut, step) = fs.truncate(ino, now);
            law_requests_leave_directories_leading_up(fs, cut, step);
            law_requests_leave_names_different(fs, cut, step);
        },
        Event::Create { parent, name } | Event::CreateExclusive { parent, name } => {
            law_requests_keep_numbers_apart(fs, parent, name, parent, name, 0, Seq::empty(), now);
            assert(after.files == fs.files);
        },
        Event::Mkdir { parent, name } => {
            law_requests_keep_numbers_apart(fs, parent, name, parent, name, 0, Seq::empty(), now);
            law_requests_change_one_file(fs, parent, name, parent, name, 0, Seq::empty(), now);
            let step = fs.mkdir(parent, name, now).1;
            law_requests_leave_directories_leading_up(fs, after, step);
            law_requests_leave_names_different(fs, after, step);
        },
        Event::Remove { parent, name } => {
            law_requests_keep_numbers_apart(fs, parent, name, parent, name, 0, Seq::empty(), now);
            law_requests_change_one_file(fs, parent, name, parent, name, 0, Seq::empty(), now);
            let step = fs.remove(parent, name, now).1;
            law_requests_leave_directories_leading_up(fs, after, step);
            law_requests_leave_names_different(fs, after, step);
        },
        Event::Rename { from, name, to, new_name } => {
            law_requests_keep_numbers_apart(fs, from, name, to, new_name, 0, Seq::empty(), now);
            law_requests_change_one_file(fs, from, name, to, new_name, 0, Seq::empty(), now);
            let step = fs.rename(from, name, to, new_name, now).1;
            law_requests_leave_directories_leading_up(fs, after, step);
            law_requests_leave_names_different(fs, after, step);
        },
        Event::Resume { file, next } => {
            if !fs.readonly && file < fs.files.len() {
                law_resumed_requests_keep_numbers_apart(fs, file, next, now);
                law_resumed_requests_change_one_file(fs, file, next, now);
                let step = fs.resumed(file, next, now).1;
                law_requests_leave_directories_leading_up(fs, after, step);
                law_requests_leave_names_different(fs, after, step);
            }
        },
        Event::RecordSaved { file, text, mtime } => {
            if file < fs.files.len() {
                lemma_saved_sound(fs, file, text, mtime);
            }
        },
        Event::WatchAdd { source } => {
            if source.shown is Some ==> fs.readonly {
                law_added_file_keeps_numbers_apart(fs, source);
                law_added_file_leads_up(fs, source);
                law_added_file_has_a_name_of_its_own(fs, source);
            }
        },
    }
}

proof fn lemma_fresh_goes_on(
    sources: Seq<SourceView>,
    readonly: bool,
    allow_other: bool,
    uid: u32,
    gid: u32,
)
    requires
        sources.len() <= usize::MAX,
    ensures
        mount_of(sources, readonly, allow_other, uid, gid).wf(),
        mount_of(sources, readonly, allow_other, uid, gid).files.len() == sources.len(),
{
    let hidden = exists|i: int| 0 <= i < sources.len() && (#[trigger] sources[i]).shown is Some;
    let bare = bare_mount(readonly || hidden, allow_other, uid, gid);
    let fs = with_all_unplaced(bare, sources);
    let start = Layout {
        children: Seq::empty(),
        seen: Set::empty(),
        dirs: Map::empty(),
        file_parents: Map::empty(),
        next: fs.next,
    };
    lemma_all_unplaced_next(bare, sources);
    lemma_all_unplaced_files(bare, sources);
    lemma_laid_out_fresh(start, leaves_of(sources), ROOT_INO, roots_of(fs.files), ROOT_INO);
}

proof fn lemma_all_unplaced_files(bare: FsView, sources: Seq<SourceView>)
    requires
        bare.files.len() == 0,
        bare.owner.dom() =~= Set::empty(),
        bare.next > 0,
        sources.len() <= usize::MAX,
    ensures
        ({
            let fs = with_all_unplaced(bare, sources);
            &&& fs.files.len() == sources.len()
            &&& fs.readonly == bare.readonly
            &&& fs.next >= bare.next
            &&& forall|i: int|
                0 <= i < sources.len() ==> (#[trigger] fs.files[i]).current() && in_step(
                    fs.files[i].inodes,
                    fs.files[i].tree,
                ) && fs.files[i].shown == sources[i].shown
            &&& forall|x: Ino| fs.owner.contains_key(x) ==> (#[trigger] fs.owner[x]) < sources.len()
        }),
    decreases sources.len(),
{
    if sources.len() > 0 {
        let fewer = sources.drop_last();
        let last = sources.last();
        lemma_all_unplaced_files(bare, fewer);
        let before = with_all_unplaced(bare, fewer);
        let fs = with_all_unplaced(bare, sources);
        law_synced_table_is_in_step(
            empty_table(),
            before.next,
            shown_tree(last.document, last.shown),
        );
        assert forall|i: int| 0 <= i < sources.len() implies (#[trigger] fs.files[i]).current()
            && in_step(fs.files[i].inodes, fs.files[i].tree) && fs.files[i].shown
            == sources[i].shown by {
            if i < fewer.len() {
                assert(fs.files[i] == before.files[i]);
                assert(sources[i] == fewer[i]);
            }
        }
    }
}

/// A mount is sound whatever happened to it, as long as the numbers do not run out.
pub proof fn law_every_mount_is_sound(
    sources: Seq<SourceView>,
    readonly: bool,
    allow_other: bool,
    uid: u32,
    gid: u32,
    events: Seq<(Event, Timestamp)>,
)
    requires
        forall|i: int| 0 <= i < sources.len() ==> (#[trigger] sources[i]).mount_path.len() > 0,
        sources.len() + events.len() < usize::MAX,
        after_events(mount_of(sources, readonly, allow_other, uid, gid), events).next < u64::MAX,
    ensures
        sound(after_events(mount_of(sources, readonly, allow_other, uid, gid), events)),
        after_events(mount_of(sources, readonly, allow_other, uid, gid), events).files.len()
            <= sources.len() + events.len(),
    decreases events.len(),
{
    let fresh = mount_of(sources, readonly, allow_other, uid, gid);
    lemma_fresh_goes_on(sources, readonly, allow_other, uid, gid);
    if events.len() == 0 {
        law_fresh_mount_has_its_numbers_apart(sources, readonly, allow_other, uid, gid);
        law_fresh_mount_leads_up(sources, readonly, allow_other, uid, gid);
        law_fresh_mount_has_different_names(sources, readonly, allow_other, uid, gid);
    } else {
        let fewer = events.drop_last();
        let (event, now) = events.last();
        lemma_events_go_on(fresh, fewer);
        let before = after_events(fresh, fewer);
        lemma_event_goes_on(before, event, now);
        law_every_mount_is_sound(sources, readonly, allow_other, uid, gid, fewer);
        law_events_leave_a_mount_sound(before, event, now);
    }
}

proof fn lemma_events_go_on(fs: FsView, events: Seq<(Event, Timestamp)>)
    requires
        fs.wf(),
        fs.files.len() + events.len() < usize::MAX,
    ensures
        after_events(fs, events).wf(),
        after_events(fs, events).files.len() <= fs.files.len() + events.len(),
    decreases events.len(),
{
    if events.len() > 0 {
        let (event, now) = events.last();
        lemma_events_go_on(fs, events.drop_last());
        lemma_event_goes_on(after_events(fs, events.drop_last()), event, now);
    }
}

/// In a sound mount the directory above a directory is the one that it was looked up in, be that the
/// root, another directory above the files, the top directory of a file or that of a heading.
pub proof fn law_parent_undoes_lookup(fs: FsView, dir: Ino, name: Seq<char>, now: Timestamp)
    requires
        sound(fs),
        fs.lookup(dir, name) is Ok,
        fs.getattr(fs.lookup(dir, name)->Ok_0, now) is Ok,
        fs.getattr(fs.lookup(dir, name)->Ok_0, now)->Ok_0.kind == FileKind::Dir,
    ensures
        fs.parent_of(fs.lookup(dir, name)->Ok_0) == Ok::<Ino, VfsError>(dir),
{
    let c = fs.lookup(dir, name)->Ok_0;
    if fs.dirs.contains_key(dir) {
        law_directory_above_the_files_is_where_it_was_looked_up(fs, dir, name);
    } else {
        let (file, path) = fs.dir_path(dir)->0;
        assert(fs.owner[dir] < fs.files.len());
        let f = fs.files[file as int];
        assert(in_step(f.inodes, f.tree));
        assert(proper_table(f.inodes));
        match canonical_child(path, name) {
            Some(p) => {
                law_numbers_lead_back(f.inodes);
                assert(f.inodes.index.inos.contains_key(p));
                law_entries_are_the_numbers_in_use(f.inodes, c);
                assert(table_uses(fs.files[file as int].inodes, c));
                assert(in_files(fs.files, c));
                assert(fs.owner.contains_key(c));
                assert(table_uses(fs.files[fs.owner[c] as int].inodes, c));
                assert(fs.owner[c] == file);
                assert(!fs.dirs.contains_key(c) && !fs.scratch.contains_key(c));
                assert(fs.path_for_ino(c) == Some((file, p)));
            },
            None => law_directory_above_is_where_it_was_looked_up(fs, dir, file, path, name),
        }
    }
}

/// In a sound mount the directory above the root is the root, and a file has no directory above it.
pub proof fn law_only_directories_have_parents(fs: FsView, ino: Ino, now: Timestamp)
    requires
        sound(fs),
    ensures
        fs.parent_of(ROOT_INO) == Ok::<Ino, VfsError>(ROOT_INO),
        fs.getattr(ino, now) is Ok && fs.getattr(ino, now)->Ok_0.kind == FileKind::File
            ==> fs.parent_of(ino) == Err::<Ino, VfsError>(VfsError::NotDir),
{
    if fs.scratch.contains_key(ino) {
        assert(!fs.dirs.contains_key(ino));
        assert(!in_files(fs.files, ino));
        assert(!fs.owner.contains_key(ino));
    }
}

} // verus!
