//! No number stands for two entries of a mount.
use vstd::prelude::*;

use crate::block::BlockView;
use crate::bytes::{spliced, text_of};
use crate::inode::{
    empty_table, index_of, indexed_below, Index, PathView, ShadowView, TableView, ROOT_INO,
};
use crate::mount::{opened, shown_tree, FileView, SourceView};
use crate::numbering::{
    in_step, law_first_numbers_are_new, law_numbers_are_never_shared_or_reused,
    law_synced_table_is_in_step, proper_table, table_uses, uses,
};
use crate::section::tree_of;
use crate::state::{
    bare_mount, canonical_child, leaves_of, mount_of, roots_of, super_dir_at, with_all_unplaced,
    with_unplaced, Edit, FsView, NextView,
};
use crate::supers::{lemma_laid_out_fresh, Layout, SuperView};
use crate::vfs::{Ino, Timestamp};

verus! {

/// The entries below a section are those with a number in use there.
pub proof fn lemma_indexed_keys(index: Index, node: ShadowView, n: nat, path: Seq<Seq<char>>, x: u64)
    requires
        n <= node.children.len(),
    ensures
        indexed_below(index, node, n, path).paths.contains_key(x) == (index.paths.contains_key(x)
            || exists|k: int| 0 <= k < n && uses(#[trigger] node.children[k], x)),
    decreases node, n,
{
    if n > 0 {
        lemma_indexed_keys(index, node, (n - 1) as nat, path, x);
        let before = indexed_below(index, node, (n - 1) as nat, path);
        let child = node.children[n - 1];
        let child_path = path.push(child.name);
        let own = before.record_section(child_path, child);
        lemma_indexed_keys(own, child, child.children.len(), child_path, x);
        assert(own.paths.contains_key(x) == (before.paths.contains_key(x) || x == child.dir || x
            == child.content));
        assert(uses(child, x) == (x == child.dir || x == child.content || exists|k: int|
            0 <= k < child.children.len() && uses(#[trigger] child.children[k], x)));
        if exists|k: int| 0 <= k < n && uses(#[trigger] node.children[k], x) {
            let k = choose|k: int| 0 <= k < n && uses(#[trigger] node.children[k], x);
            if k < n - 1 {
                assert(uses(node.children[k], x));
            }
        }
        if exists|k: int| 0 <= k < n - 1 && uses(#[trigger] node.children[k], x) {
            let k = choose|k: int| 0 <= k < n - 1 && uses(#[trigger] node.children[k], x);
            assert(0 <= k < n && uses(node.children[k], x));
        }
        if uses(child, x) {
            assert(0 <= n - 1 < n && uses(node.children[n - 1], x));
        }
    }
}

/// The entries of a file are those with a number in use.
pub proof fn law_entries_are_the_numbers_in_use(table: TableView, x: u64)
    requires
        table.index == index_of(table.shadow, table.front_matter),
    ensures
        table.index.paths.contains_key(x) == table_uses(table, x),
{
    let root = Index::none().record_section(Seq::empty(), table.shadow);
    lemma_indexed_keys(
        root,
        table.shadow,
        table.shadow.children.len(),
        Seq::empty(),
        x,
    );
}

/// Whether the number `x` is in use in one of the files.
pub open spec fn in_files(files: Seq<FileView>, x: Ino) -> bool {
    exists|i: int| 0 <= i < files.len() && table_uses((#[trigger] files[i]).inodes, x)
}

/// Whether no number stands for two entries of the mount, every number in use was handed out, and
/// each number of a file is known to belong to it.
pub open spec fn numbers_apart(fs: FsView) -> bool {
    &&& forall|i: int| 0 <= i < fs.files.len() ==> proper_table((#[trigger] fs.files[i]).inodes)
    &&& forall|i: int, j: int, x: Ino|
        0 <= i < j < fs.files.len() ==> !(#[trigger] table_uses(fs.files[i].inodes, x)
            && #[trigger] table_uses(fs.files[j].inodes, x))
    &&& forall|x: Ino| #[trigger] in_files(fs.files, x) ==> x < fs.next
    &&& forall|x: Ino| #[trigger]
        fs.dirs.contains_key(x) ==> x < fs.next && !in_files(fs.files, x)
            && !fs.scratch.contains_key(x)
    &&& forall|x: Ino| #[trigger]
        fs.scratch.contains_key(x) ==> x < fs.next && !in_files(fs.files, x)
    &&& forall|x: Ino| #[trigger] fs.owner.contains_key(x) == in_files(fs.files, x)
    &&& forall|x: Ino| #[trigger]
        fs.owner.contains_key(x) ==> fs.owner[x] < fs.files.len() && table_uses(
            fs.files[fs.owner[x] as int].inodes,
            x,
        )
}

/// Whether the number `x` stands for an entry of the mount.
pub open spec fn in_use(fs: FsView, x: Ino) -> bool {
    in_files(fs.files, x) || fs.dirs.contains_key(x) || fs.scratch.contains_key(x)
}

/// Whether the numbers of `after` are apart, and none of them was in use before `fs` and then given
/// up: each stands for an entry of `fs`, or is used for the first time.
pub open spec fn kept_apart(fs: FsView, after: FsView) -> bool {
    &&& numbers_apart(after)
    &&& forall|x: Ino| #[trigger] in_use(after, x) ==> in_use(fs, x) || x >= fs.next
}

proof fn lemma_rebuilt_apart(fs: FsView, file: usize, document: Seq<BlockView>)
    requires
        fs.wf(),
        numbers_apart(fs),
        file < fs.files.len(),
        fs.rebuilt(file, document).next < u64::MAX,
    ensures
        kept_apart(fs, fs.rebuilt(file, document)),
{
    let after = fs.rebuilt(file, document);
    let f = fs.files[file as int];
    let g = after.files[file as int];
    let tree = tree_of(document);
    assert(in_step(f.inodes, f.tree));
    assert forall|x: u64| #[trigger] table_uses(f.inodes, x) implies x < fs.next by {
        assert(in_files(fs.files, x));
    }
    law_numbers_are_never_shared_or_reused(f.inodes, fs.next, tree);
    law_synced_table_is_in_step(f.inodes, fs.next, tree);
    assert(fs.next <= after.next);
    assert forall|x: Ino| #[trigger] in_files(after.files, x) implies x < after.next && (x
        >= fs.next || in_files(fs.files, x)) by {
        let i = choose|i: int|
            0 <= i < after.files.len() && table_uses((#[trigger] after.files[i]).inodes, x);
        if i == file {
            assert(table_uses(g.inodes, x));
            if x < fs.next {
                assert(table_uses(fs.files[file as int].inodes, x));
            }
        } else {
            assert(after.files[i] == fs.files[i]);
            assert(in_files(fs.files, x));
        }
    }
    assert forall|i: int| 0 <= i < after.files.len() implies proper_table(
        (#[trigger] after.files[i]).inodes,
    ) by {
        if i != file {
            assert(after.files[i] == fs.files[i]);
        }
    }
    assert forall|i: int, j: int, x: Ino| 0 <= i < j < after.files.len() implies !(
    #[trigger] table_uses(after.files[i].inodes, x) && #[trigger] table_uses(
        after.files[j].inodes,
        x,
    )) by {
        if table_uses(after.files[i].inodes, x) && table_uses(after.files[j].inodes, x) {
            let other = if i == file {
                j
            } else {
                i
            };
            assert(after.files[other] == fs.files[other]);
            assert(in_files(fs.files, x));
            assert(x < fs.next);
            if i == file || j == file {
                assert(table_uses(g.inodes, x));
                assert(table_uses(f.inodes, x));
            } else {
                assert(after.files[j] == fs.files[j]);
            }
            assert(!(table_uses(fs.files[i].inodes, x) && table_uses(fs.files[j].inodes, x)));
        }
    }
    assert forall|x: Ino| #[trigger] after.owner.contains_key(x) == in_files(after.files, x) by {
        law_entries_are_the_numbers_in_use(f.inodes, x);
        law_entries_are_the_numbers_in_use(g.inodes, x);
        if after.owner.contains_key(x) {
            if g.inodes.index.paths.dom().contains(x) {
                assert(table_uses(after.files[file as int].inodes, x));
            } else {
                assert(fs.owner.contains_key(x));
                let i = fs.owner[x] as int;
                assert(table_uses(fs.files[i].inodes, x));
                assert(i != file);
                assert(after.files[i] == fs.files[i]);
            }
        }
        if in_files(after.files, x) {
            let i = choose|i: int|
                0 <= i < after.files.len() && table_uses((#[trigger] after.files[i]).inodes, x);
            if i != file {
                assert(after.files[i] == fs.files[i]);
                assert(in_files(fs.files, x));
                assert(fs.owner.contains_key(x));
                if table_uses(f.inodes, x) {
                    if i < file {
                        assert(!(table_uses(fs.files[i].inodes, x) && table_uses(
                            fs.files[file as int].inodes,
                            x,
                        )));
                    } else {
                        assert(!(table_uses(fs.files[file as int].inodes, x) && table_uses(
                            fs.files[i].inodes,
                            x,
                        )));
                    }
                }
            }
        }
    }
    assert forall|x: Ino| #[trigger] after.owner.contains_key(x) implies after.owner[x]
        < after.files.len() && table_uses(after.files[after.owner[x] as int].inodes, x) by {
        law_entries_are_the_numbers_in_use(f.inodes, x);
        law_entries_are_the_numbers_in_use(g.inodes, x);
        if !g.inodes.index.paths.dom().contains(x) {
            assert(fs.owner.contains_key(x));
            let i = fs.owner[x] as int;
            assert(table_uses(fs.files[i].inodes, x));
            assert(i != file);
            assert(after.files[i] == fs.files[i]);
        }
    }
    assert forall|x: Ino| #[trigger] after.dirs.contains_key(x) implies x < after.next && !in_files(
        after.files,
        x,
    ) && !after.scratch.contains_key(x) by {
        assert(fs.dirs.contains_key(x));
    }
    assert forall|x: Ino| #[trigger] after.scratch.contains_key(x) implies x < after.next
        && !in_files(after.files, x) by {
        assert(fs.scratch.contains_key(x));
    }
}

/// Making a buffer uses a number for the first time.
proof fn lemma_buffer_apart(fs: FsView, parent: Ino, name: Seq<char>)
    requires
        numbers_apart(fs),
        fs.with_buffer(parent, name).next < u64::MAX,
    ensures
        kept_apart(fs, fs.with_buffer(parent, name)),
{
    let after = fs.with_buffer(parent, name);
    assert forall|x: Ino| #[trigger] after.dirs.contains_key(x) implies x < after.next && !in_files(
        after.files,
        x,
    ) && !after.scratch.contains_key(x) by {
        assert(fs.dirs.contains_key(x));
    }
}

proof fn lemma_edited_apart(fs: FsView, file: usize, edit: Edit, next: NextView, now: Timestamp)
    requires
        fs.wf(),
        numbers_apart(fs),
        file < fs.files.len(),
        fs.edited(file, edit, next, now).0.next < u64::MAX,
    ensures
        kept_apart(fs, fs.edited(file, edit, next, now).0),
{
    match edit {
        Ok(Some(document)) => lemma_rebuilt_apart(fs, file, document),
        Ok(None) => {
            law_resumed_requests_keep_numbers_apart(fs, file, next, now);
        },
        Err(_) => {},
    }
}

/// Going on with a request keeps the numbers of a mount apart, as long as they do not run out.
pub proof fn law_resumed_requests_keep_numbers_apart(
    fs: FsView,
    file: usize,
    next: NextView,
    now: Timestamp,
)
    requires
        fs.wf(),
        numbers_apart(fs),
        file < fs.files.len(),
        fs.resumed(file, next, now).0.next < u64::MAX,
    ensures
        kept_apart(fs, fs.resumed(file, next, now).0),
{
    match next {
        NextView::ClearSource { path, from, name } => {
            let edit = fs.files[file as int].content_edit(path, Seq::empty());
            if let Ok(Some(document)) = edit {
                lemma_rebuilt_apart(fs, file, document);
            }
        },
        _ => {},
    }
}

/// Every request keeps the numbers of a mount apart, and none puts a number to use again that was
/// given up, as long as they do not run out.
pub proof fn law_requests_keep_numbers_apart(
    fs: FsView,
    a: Ino,
    a_name: Seq<char>,
    b: Ino,
    b_name: Seq<char>,
    offset: int,
    data: Seq<u8>,
    now: Timestamp,
)
    requires
        fs.wf(),
        numbers_apart(fs),
    ensures
        fs.write(a, offset, data, now).0.next < u64::MAX ==> kept_apart(
            fs,
            fs.write(a, offset, data, now).0,
        ),
        fs.truncate(a, now).0.next < u64::MAX ==> kept_apart(fs, fs.truncate(a, now).0),
        fs.mkdir(a, a_name, now).0.next < u64::MAX ==> kept_apart(fs, fs.mkdir(a, a_name, now).0),
        fs.remove(a, a_name, now).0.next < u64::MAX ==> kept_apart(
            fs,
            fs.remove(a, a_name, now).0,
        ),
        fs.rename(a, a_name, b, b_name, now).0.next < u64::MAX ==> kept_apart(
            fs,
            fs.rename(a, a_name, b, b_name, now).0,
        ),
        fs.create(a, a_name, now).0.next < u64::MAX ==> kept_apart(
            fs,
            fs.create(a, a_name, now).0,
        ),
        fs.create_exclusive(a, a_name).0.next < u64::MAX ==> kept_apart(
            fs,
            fs.create_exclusive(a, a_name).0,
        ),
{
    if fs.write(a, offset, data, now).0.next < u64::MAX {
        lemma_write_apart(fs, a, offset, data, now);
    }
    if fs.truncate(a, now).0.next < u64::MAX {
        lemma_truncate_apart(fs, a, now);
    }
    if fs.mkdir(a, a_name, now).0.next < u64::MAX {
        lemma_mkdir_apart(fs, a, a_name, now);
    }
    if fs.remove(a, a_name, now).0.next < u64::MAX {
        lemma_remove_apart(fs, a, a_name, now);
    }
    if fs.rename(a, a_name, b, b_name, now).0.next < u64::MAX {
        lemma_rename_apart(fs, a, a_name, b, b_name, now);
    }
    lemma_create_apart(fs, a, a_name, now);
}

proof fn lemma_owner_is_file(fs: FsView, a: Ino)
    requires
        fs.wf(),
    ensures
        match fs.path_for_ino(a) {
            Some((file, _)) => file < fs.files.len(),
            None => true,
        },
{
    if fs.owner.contains_key(a) {
        assert(fs.owner[a] < fs.files.len());
    }
}

proof fn lemma_write_apart(fs: FsView, a: Ino, offset: int, data: Seq<u8>, now: Timestamp)
    requires
        fs.wf(),
        numbers_apart(fs),
        fs.write(a, offset, data, now).0.next < u64::MAX,
    ensures
        kept_apart(fs, fs.write(a, offset, data, now).0),
{
    lemma_owner_is_file(fs, a);
    let after = fs.write(a, offset, data, now).0;
    if fs.readonly {
    } else if fs.scratch.contains_key(a) {
        assert forall|x: Ino| #[trigger] after.dirs.contains_key(x) implies !in_files(
            after.files,
            x,
        ) && !after.scratch.contains_key(x) by {
            assert(fs.dirs.contains_key(x));
        }
    } else if let Some((file, path)) = fs.path_for_ino(a) {
        let f = fs.files[file as int];
        if let Ok(bytes) = f.bytes_for(path) {
            lemma_edited_apart(
                fs,
                file,
                f.file_edit(path, text_of(spliced(bytes, offset, data))),
                NextView::Attr { ino: a, entry: path },
                now,
            );
        }
    }
}

proof fn lemma_truncate_apart(fs: FsView, a: Ino, now: Timestamp)
    requires
        fs.wf(),
        numbers_apart(fs),
        fs.truncate(a, now).0.next < u64::MAX,
    ensures
        kept_apart(fs, fs.truncate(a, now).0),
{
    lemma_owner_is_file(fs, a);
    let after = fs.truncate(a, now).0;
    if fs.readonly {
    } else if fs.scratch.contains_key(a) {
        assert forall|x: Ino| #[trigger] after.dirs.contains_key(x) implies !in_files(
            after.files,
            x,
        ) && !after.scratch.contains_key(x) by {
            assert(fs.dirs.contains_key(x));
        }
    } else if let Some((file, path)) = fs.path_for_ino(a) {
        lemma_edited_apart(
            fs,
            file,
            fs.files[file as int].file_edit(path, Seq::empty()),
            NextView::Stat { ino: a },
            now,
        );
    }
}

proof fn lemma_mkdir_apart(fs: FsView, a: Ino, name: Seq<char>, now: Timestamp)
    requires
        fs.wf(),
        numbers_apart(fs),
        fs.mkdir(a, name, now).0.next < u64::MAX,
    ensures
        kept_apart(fs, fs.mkdir(a, name, now).0),
{
    lemma_owner_is_file(fs, a);
    if !fs.readonly && !fs.dirs.contains_key(a) {
        if let Some((file, path)) = fs.dir_path(a) {
            lemma_edited_apart(
                fs,
                file,
                fs.files[file as int].mkdir_edit(path, name),
                NextView::NewDir { path: path.push(name) },
                now,
            );
        }
    }
}

proof fn lemma_remove_apart(fs: FsView, a: Ino, name: Seq<char>, now: Timestamp)
    requires
        fs.wf(),
        numbers_apart(fs),
        fs.remove(a, name, now).0.next < u64::MAX,
    ensures
        kept_apart(fs, fs.remove(a, name, now).0),
{
    lemma_owner_is_file(fs, a);
    if !fs.readonly && !fs.names.contains_key((a, name)) && !fs.dirs.contains_key(a) {
        if let Some((file, path)) = fs.dir_path(a) {
            let f = fs.files[file as int];
            let edit = match canonical_child(path, name) {
                Some(p) => f.file_edit(p, Seq::empty()),
                None => f.rmdir_edit(path, name),
            };
            lemma_edited_apart(fs, file, edit, NextView::Finish, now);
        }
    }
}

proof fn lemma_rename_apart(
    fs: FsView,
    from: Ino,
    from_name: Seq<char>,
    to: Ino,
    to_name: Seq<char>,
    now: Timestamp,
)
    requires
        fs.wf(),
        numbers_apart(fs),
        fs.rename(from, from_name, to, to_name, now).0.next < u64::MAX,
    ensures
        kept_apart(fs, fs.rename(from, from_name, to, to_name, now).0),
{
    lemma_owner_is_file(fs, to);
    if !fs.readonly {
        if let Some((file, path)) = fs.dir_path(to) {
            match canonical_child(path, to_name) {
                Some(p) => lemma_adopted_apart(fs, from, from_name, file, p, now),
                None => lemma_moved_apart(fs, from, from_name, to, to_name, file, path, now),
            }
        }
    }
}

proof fn lemma_adopted_apart(
    fs: FsView,
    from: Ino,
    from_name: Seq<char>,
    file: usize,
    path: PathView,
    now: Timestamp,
)
    requires
        fs.wf(),
        numbers_apart(fs),
        file < fs.files.len(),
        fs.adopted(from, from_name, file, path, now).0.next < u64::MAX,
    ensures
        kept_apart(fs, fs.adopted(from, from_name, file, path, now).0),
{
    let f = fs.files[file as int];
    if fs.names.contains_key((from, from_name)) {
        if let Some(bytes) = fs.scratch.get(fs.names[(from, from_name)]) {
            lemma_edited_apart(
                fs,
                file,
                f.file_edit(path, text_of(bytes)),
                NextView::Forget { from, name: from_name },
                now,
            );
        }
    } else if from_name == crate::document::CONTENT_FILE@ {
        if let Some((source_file, source_path)) = fs.dir_path(from) {
            if source_file == file {
                if path != PathView::Content(source_path) {
                    lemma_edited_apart(
                        fs,
                        file,
                        f.file_edit(path, text_of(f.section_bytes(source_path))),
                        NextView::ClearSource { path: source_path, from, name: from_name },
                        now,
                    );
                }
            }
        }
    }
}

proof fn lemma_moved_apart(
    fs: FsView,
    from: Ino,
    from_name: Seq<char>,
    to: Ino,
    to_name: Seq<char>,
    file: usize,
    path: Seq<Seq<char>>,
    now: Timestamp,
)
    requires
        fs.wf(),
        numbers_apart(fs),
        file < fs.files.len(),
        fs.moved(from, from_name, to, to_name, file, path, now).0.next < u64::MAX,
    ensures
        kept_apart(fs, fs.moved(from, from_name, to, to_name, file, path, now).0),
{
    let f = fs.files[file as int];
    if fs.names.contains_key((from, from_name)) {
    } else if from == to {
        lemma_edited_apart(
            fs,
            file,
            f.rename_edit(path, from_name, to_name),
            NextView::Finish,
            now,
        );
    } else if let Some((source_file, source_path)) = fs.dir_path(from) {
        if source_file == file {
            lemma_edited_apart(
                fs,
                file,
                f.move_edit(source_path, from_name, path, to_name),
                NextView::Finish,
                now,
            );
        }
    }
}

proof fn lemma_create_apart(fs: FsView, a: Ino, name: Seq<char>, now: Timestamp)
    requires
        numbers_apart(fs),
    ensures
        fs.create(a, name, now).0.next < u64::MAX ==> kept_apart(fs, fs.create(a, name, now).0),
        fs.create_exclusive(a, name).0.next < u64::MAX ==> kept_apart(
            fs,
            fs.create_exclusive(a, name).0,
        ),
{
    if fs.with_buffer(a, name).next < u64::MAX {
        lemma_buffer_apart(fs, a, name);
    }
}

proof fn lemma_unplaced_apart(fs: FsView, source: SourceView)
    requires
        numbers_apart(fs),
        fs.next > 0,
        fs.files.len() < usize::MAX,
        with_unplaced(fs, source).next < u64::MAX,
    ensures
        numbers_apart(with_unplaced(fs, source)),
        fs.next <= with_unplaced(fs, source).next,
        forall|x: Ino| #[trigger]
            in_files(with_unplaced(fs, source).files, x) ==> in_files(fs.files, x) || x >= fs.next,
{
    let after = with_unplaced(fs, source);
    let f = opened(source, fs.next).0;
    let n = fs.files.len() as int;
    let tree = shown_tree(source.document, source.shown);
    law_first_numbers_are_new(fs.next, tree);
    law_synced_table_is_in_step(empty_table(), fs.next, tree);
    assert(after.files[n] == f);
    assert forall|x: Ino| #[trigger] in_files(after.files, x) implies x < after.next && (in_files(
        fs.files,
        x,
    ) || (x >= fs.next && table_uses(f.inodes, x))) by {
        let i = choose|i: int|
            0 <= i < after.files.len() && table_uses((#[trigger] after.files[i]).inodes, x);
        if i < n {
            assert(after.files[i] == fs.files[i]);
            assert(in_files(fs.files, x));
        } else {
            assert(table_uses(f.inodes, x));
        }
    }
    assert forall|i: int| 0 <= i < after.files.len() implies proper_table(
        (#[trigger] after.files[i]).inodes,
    ) by {
        if i < n {
            assert(after.files[i] == fs.files[i]);
        }
    }
    assert forall|i: int, j: int, x: Ino| 0 <= i < j < after.files.len() implies !(
    #[trigger] table_uses(after.files[i].inodes, x) && #[trigger] table_uses(
        after.files[j].inodes,
        x,
    )) by {
        assert(after.files[i] == fs.files[i]);
        if j < n {
            assert(after.files[j] == fs.files[j]);
        } else if table_uses(after.files[i].inodes, x) && table_uses(after.files[j].inodes, x) {
            assert(in_files(fs.files, x));
            assert(table_uses(f.inodes, x));
        }
    }
    assert forall|x: Ino| #[trigger] after.owner.contains_key(x) == in_files(after.files, x) by {
        law_entries_are_the_numbers_in_use(f.inodes, x);
        if after.owner.contains_key(x) {
            if f.inodes.index.paths.dom().contains(x) {
                assert(table_uses(after.files[n].inodes, x));
            } else {
                assert(fs.owner.contains_key(x));
                let i = choose|i: int|
                    0 <= i < fs.files.len() && table_uses((#[trigger] fs.files[i]).inodes, x);
                assert(after.files[i] == fs.files[i]);
            }
        }
        if in_files(after.files, x) {
            if in_files(fs.files, x) {
                assert(fs.owner.contains_key(x));
            }
        }
    }
    assert forall|x: Ino| #[trigger] after.owner.contains_key(x) implies after.owner[x]
        < after.files.len() && table_uses(after.files[after.owner[x] as int].inodes, x) by {
        law_entries_are_the_numbers_in_use(f.inodes, x);
        if !f.inodes.index.paths.dom().contains(x) {
            assert(fs.owner.contains_key(x));
            let i = fs.owner[x] as int;
            assert(table_uses(fs.files[i].inodes, x));
            assert(after.files[i] == fs.files[i]);
        }
    }
    assert forall|x: Ino| #[trigger] after.dirs.contains_key(x) implies x < after.next && !in_files(
        after.files,
        x,
    ) && !after.scratch.contains_key(x) by {
        assert(fs.dirs.contains_key(x));
    }
    assert forall|x: Ino| #[trigger] after.scratch.contains_key(x) implies x < after.next
        && !in_files(after.files, x) by {
        assert(fs.scratch.contains_key(x));
    }
}

/// Directories are made under numbers that are used for the first time.
pub(crate) proof fn lemma_super_dirs_fresh(
    dirs: Map<Ino, SuperView>,
    next: Ino,
    names: Seq<Seq<char>>,
    x: Ino,
)
    requires
        dirs.contains_key(ROOT_INO),
    ensures
        next <= super_dir_at(dirs, next, names).1,
        super_dir_at(dirs, next, names).0.contains_key(super_dir_at(dirs, next, names).2),
        super_dir_at(dirs, next, names).1 < u64::MAX && super_dir_at(
            dirs,
            next,
            names,
        ).0.contains_key(x) ==> dirs.contains_key(x) || next <= x < super_dir_at(
            dirs,
            next,
            names,
        ).1,
        dirs.contains_key(x) ==> super_dir_at(dirs, next, names).0.contains_key(x),
    decreases names.len(),
{
    if names.len() > 0 {
        lemma_super_dirs_fresh(dirs, next, names.drop_last(), x);
        lemma_super_dirs_fresh(dirs, next, names.drop_last(), ROOT_INO);
    }
}

/// Adding a file keeps the numbers of a mount apart, as long as they do not run out.
pub proof fn law_added_file_keeps_numbers_apart(fs: FsView, source: SourceView)
    requires
        fs.wf(),
        numbers_apart(fs),
        fs.files.len() < usize::MAX,
        fs.with_file(source).next < u64::MAX,
    ensures
        kept_apart(fs, fs.with_file(source)),
{
    if source.mount_path.len() > 0 && !fs.mounted.contains(source.path) {
        let opened_fs = with_unplaced(fs, source);
        let after = fs.with_file(source);
        let names = source.mount_path.drop_last();
        lemma_super_dirs_fresh(opened_fs.dirs, opened_fs.next, names, ROOT_INO);
        lemma_unplaced_apart(fs, source);
        assert forall|x: Ino| #[trigger] after.dirs.contains_key(x) implies x < after.next
            && !in_files(after.files, x) && !after.scratch.contains_key(x) by {
            lemma_super_dirs_fresh(opened_fs.dirs, opened_fs.next, names, x);
            if opened_fs.dirs.contains_key(x) {
            } else {
                assert(x >= opened_fs.next);
                if in_files(after.files, x) {
                    assert(in_files(opened_fs.files, x));
                }
                if after.scratch.contains_key(x) {
                    assert(opened_fs.scratch.contains_key(x));
                }
            }
        }
        assert forall|x: Ino| #[trigger] after.scratch.contains_key(x) implies x < after.next by {
            assert(opened_fs.scratch.contains_key(x));
        }
        assert forall|x: Ino| #[trigger] in_files(after.files, x) implies x < after.next by {
            assert(in_files(opened_fs.files, x));
        }
        assert forall|x: Ino| #[trigger] in_use(after, x) implies in_use(fs, x) || x >= fs.next by {
            if in_files(after.files, x) {
                assert(in_files(opened_fs.files, x));
            } else if after.dirs.contains_key(x) {
                lemma_super_dirs_fresh(opened_fs.dirs, opened_fs.next, names, x);
            }
        }
    }
}

proof fn lemma_all_unplaced_apart(fs: FsView, sources: Seq<SourceView>)
    requires
        numbers_apart(fs),
        fs.next > 0,
        fs.files.len() + sources.len() <= usize::MAX,
        with_all_unplaced(fs, sources).next < u64::MAX,
    ensures
        numbers_apart(with_all_unplaced(fs, sources)),
        fs.next <= with_all_unplaced(fs, sources).next,
        with_all_unplaced(fs, sources).files.len() == fs.files.len() + sources.len(),
        with_all_unplaced(fs, sources).dirs == fs.dirs,
        with_all_unplaced(fs, sources).scratch == fs.scratch,
        forall|x: Ino| #[trigger]
            in_files(with_all_unplaced(fs, sources).files, x) ==> in_files(fs.files, x) || x
                >= fs.next,
    decreases sources.len(),
{
    if sources.len() > 0 {
        let before = with_all_unplaced(fs, sources.drop_last());
        let tree = shown_tree(sources.last().document, sources.last().shown);
        lemma_all_unplaced_next(fs, sources.drop_last());
        law_synced_table_is_in_step(empty_table(), before.next, tree);
        lemma_all_unplaced_apart(fs, sources.drop_last());
        lemma_unplaced_apart(before, sources.last());
        assert forall|x: Ino| #[trigger]
            in_files(with_all_unplaced(fs, sources).files, x) implies in_files(fs.files, x) || x
            >= fs.next by {
            assert(in_files(before.files, x) || x >= before.next);
        }
    }
}

/// Reading the files of a mount hands out numbers upwards.
pub proof fn lemma_all_unplaced_next(fs: FsView, sources: Seq<SourceView>)
    requires
        fs.next > 0,
    ensures
        fs.next <= with_all_unplaced(fs, sources).next,
        with_all_unplaced(fs, sources).files.len() == fs.files.len() + sources.len(),
    decreases sources.len(),
{
    if sources.len() > 0 {
        lemma_all_unplaced_next(fs, sources.drop_last());
        let before = with_all_unplaced(fs, sources.drop_last());
        law_synced_table_is_in_step(
            empty_table(),
            before.next,
            shown_tree(sources.last().document, sources.last().shown),
        );
    }
}

/// In a fresh mount no number stands for two entries, as long as they do not run out.
pub proof fn law_fresh_mount_has_its_numbers_apart(
    sources: Seq<SourceView>,
    readonly: bool,
    allow_other: bool,
    uid: u32,
    gid: u32,
)
    requires
        sources.len() < usize::MAX,
        mount_of(sources, readonly, allow_other, uid, gid).next < u64::MAX,
    ensures
        numbers_apart(mount_of(sources, readonly, allow_other, uid, gid)),
{
    let hidden = exists|i: int| 0 <= i < sources.len() && (#[trigger] sources[i]).shown is Some;
    let bare = bare_mount(readonly || hidden, allow_other, uid, gid);
    let fs = with_all_unplaced(bare, sources);
    let after = mount_of(sources, readonly, allow_other, uid, gid);
    let start = Layout {
        children: Seq::empty(),
        seen: Set::empty(),
        dirs: Map::empty(),
        file_parents: Map::empty(),
        next: fs.next,
    };
    lemma_laid_out_fresh(start, leaves_of(sources), ROOT_INO, roots_of(fs.files), ROOT_INO);
    assert(numbers_apart(bare));
    lemma_all_unplaced_apart(bare, sources);
    assert forall|x: Ino| #[trigger] after.dirs.contains_key(x) implies x < after.next && !in_files(
        after.files,
        x,
    ) && !after.scratch.contains_key(x) by {
        lemma_laid_out_fresh(start, leaves_of(sources), ROOT_INO, roots_of(fs.files), x);
        if in_files(after.files, x) {
            assert(in_files(fs.files, x));
            assert(!in_files(bare.files, x));
        }
    }
    assert forall|x: Ino| #[trigger] in_files(after.files, x) implies x < after.next by {
        assert(in_files(fs.files, x));
    }
}

} // verus!
