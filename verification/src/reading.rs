//! What is written into a mounted file is read back.
use vstd::prelude::*;
use vstd::utf8::{decode_utf8_encode_utf8, encode_utf8, valid_utf8};

use crate::block::{parsed, rendered, BlockView};
use crate::bytes::{spliced, text_of};
use crate::document::{front_matter_text, with_front_matter, CONTENT_FILE};
use crate::inode::{
    by_name, indexed_below, renumbered, section_names, shadow_names, synced, Index, PathView,
    ShadowView, TableView,
};
use crate::making::law_changes_behind_a_heading_keep_its_path;
use crate::mount::{lemma_child_index, lemma_found_occurs, lemma_section_in_bounds, FileView};
use crate::naming::law_shown_sibling_names_differ;
use crate::numbering::{
    all_proper, any_uses, distinct_names, in_step, law_numbers_are_never_shared_or_reused,
    law_synced_table_is_in_step, lemma_last_named_is, lemma_renumbered_at, named_like, proper,
    proper_table, table_uses, uses,
};
use crate::outline::{law_a_heading_is_one_directory, lemma_placed, lemma_sections_placed, occurs};
use crate::reflow::{reflowed, spliced_in};
use crate::section::{
    body_start, child_index, find_below, front_matter_of, lemma_next_heading, next_heading, tree_of,
    FrontMatterKind, SectionView, TreeView,
};
use crate::shifting::{
    alike, contents, law_splice_keeps_all_other_blocks, law_written_headings_become_directories,
    lemma_body_start_kept, lemma_spliced_in_len,
};
use crate::state::{FsView, NextView, Reply, StepView};
use crate::uniqueness::{in_files, law_entries_are_the_numbers_in_use, numbers_apart};
use crate::vfs::{Ino, Timestamp, VfsError};
use crate::visibility::law_paths_lead_back;

verus! {

/// The numbers of the section at `path` below `section`, where `nodes` are those of its subsections.
pub open spec fn numbers_at(
    nodes: Seq<ShadowView>,
    section: SectionView,
    path: Seq<Seq<char>>,
) -> ShadowView
    decreases path.len(),
{
    let k = child_index(section.children, path[0])->0;
    if path.len() <= 1 {
        nodes[k]
    } else {
        numbers_at(nodes[k].children, section.children[k], path.drop_first())
    }
}

/// The numbers of the section at `path` of a file.
pub open spec fn numbers_of(table: TableView, tree: TreeView, path: Seq<Seq<char>>) -> ShadowView {
    if path.len() == 0 {
        table.shadow
    } else {
        numbers_at(table.shadow.children, tree.root, path)
    }
}

/// As long as sibling names differ, a section that is still found at its path keeps its numbers.
proof fn lemma_path_keeps_numbers(
    olds: Seq<ShadowView>,
    old_section: SectionView,
    section: SectionView,
    next: u64,
    path: Seq<Seq<char>>,
)
    requires
        named_like(olds, old_section),
        distinct_names(old_section),
        path.len() > 0,
        find_below(old_section, path) is Some,
        find_below(section, path) is Some,
    ensures
        ({
            let nodes = renumbered(olds, section, section.children.len(), next).0;
            let new = numbers_at(nodes, section, path);
            let before = numbers_at(olds, old_section, path);
            new.dir == before.dir && new.content == before.content
        }),
    decreases path.len(),
{
    let name = path[0];
    lemma_child_index(old_section.children, name);
    lemma_child_index(section.children, name);
    let i = child_index(old_section.children, name)->0;
    let k = child_index(section.children, name)->0;
    let names = shadow_names(olds);
    let all = section_names(old_section.children);
    assert forall|j: int| 0 <= j < names.len() implies #[trigger] names[j] == all[j] by {
        assert(olds[j].name == old_section.children[j].name);
    }
    assert(names[i] == name);
    assert forall|j: int| i < j < names.len() implies #[trigger] names[j] != name by {
        assert(names[j] == all[j]);
        assert(all[i] == name);
    }
    lemma_last_named_is(names, name, i);
    let news = section_names(section.children);
    assert forall|j: int| 0 <= j < k implies #[trigger] news[j] != news[k] by {
        assert(section.children[j].name != name);
    }
    assert(by_name(names, news, k) == Some(i));
    lemma_renumbered_at(olds, section, section.children.len(), next, k);
    if path.len() > 1 {
        let nodes = renumbered(olds, section, section.children.len(), next).0;
        let child = section.children[k];
        let free = choose|free: u64|
            nodes[k].children == (#[trigger] renumbered(
                olds[i].children,
                child,
                child.children.len(),
                free,
            )).0;
        assert(named_like(olds[i].children, old_section.children[i]));
        assert(distinct_names(old_section.children[i]));
        lemma_path_keeps_numbers(
            olds[i].children,
            old_section.children[i],
            child,
            free,
            path.drop_first(),
        );
    }
}

/// An entry stays recorded where its number is not used again.
proof fn lemma_stays_recorded(
    index: Index,
    node: ShadowView,
    n: nat,
    path: Seq<Seq<char>>,
    x: u64,
)
    requires
        n <= node.children.len(),
        index.paths.contains_key(x),
        forall|k: int| 0 <= k < n ==> !uses(#[trigger] node.children[k], x),
    ensures
        indexed_below(index, node, n, path).paths.contains_key(x),
        indexed_below(index, node, n, path).paths[x] == index.paths[x],
    decreases node, n,
{
    if n > 0 {
        lemma_stays_recorded(index, node, (n - 1) as nat, path, x);
        let before = indexed_below(index, node, (n - 1) as nat, path);
        let child = node.children[n - 1];
        let child_path = path.push(child.name);
        assert(!uses(child, x));
        assert forall|k: int| 0 <= k < child.children.len() implies !uses(
            #[trigger] child.children[k],
            x,
        ) by {}
        lemma_stays_recorded(
            before.record_section(child_path, child),
            child,
            child.children.len(),
            child_path,
            x,
        );
    }
}

proof fn lemma_numbers_used(nodes: Seq<ShadowView>, section: SectionView, path: Seq<Seq<char>>)
    requires
        named_like(nodes, section),
        path.len() > 0,
        find_below(section, path) is Some,
    ensures
        ({
            let k = child_index(section.children, path[0])->0;
            let x = numbers_at(nodes, section, path);
            &&& 0 <= k < nodes.len()
            &&& uses(nodes[k], x.dir)
            &&& uses(nodes[k], x.content)
        }),
    decreases path.len(),
{
    lemma_child_index(section.children, path[0]);
    let k = child_index(section.children, path[0])->0;
    if path.len() > 1 {
        assert(named_like(nodes[k].children, section.children[k]));
        lemma_numbers_used(nodes[k].children, section.children[k], path.drop_first());
        let m = child_index(section.children[k].children, path.drop_first()[0])->0;
        assert(uses(nodes[k].children[m], numbers_at(nodes, section, path).dir));
    }
}

proof fn lemma_numbers_recorded(
    index: Index,
    node: ShadowView,
    n: nat,
    at: Seq<Seq<char>>,
    section: SectionView,
    path: Seq<Seq<char>>,
)
    requires
        n <= node.children.len(),
        all_proper(node.children),
        named_like(node.children, section),
        path.len() > 0,
        find_below(section, path) is Some,
        child_index(section.children, path[0])->0 < n,
    ensures
        ({
            let x = numbers_at(node.children, section, path);
            let paths = indexed_below(index, node, n, at).paths;
            &&& paths.contains_key(x.dir) && paths[x.dir] == PathView::Dir(at + path)
            &&& paths.contains_key(x.content) && paths[x.content] == PathView::Content(at + path)
        }),
    decreases node, n,
{
    lemma_child_index(section.children, path[0]);
    lemma_numbers_used(node.children, section, path);
    let k = child_index(section.children, path[0])->0;
    let x = numbers_at(node.children, section, path);
    let before = indexed_below(index, node, (n - 1) as nat, at);
    let child = node.children[n - 1];
    let child_path = at.push(child.name);
    let own = before.record_section(child_path, child);
    assert(proper(child));
    if k < n - 1 {
        lemma_numbers_recorded(index, node, (n - 1) as nat, at, section, path);
        assert(!uses(child, x.dir)) by {
            assert(uses(node.children[k], x.dir));
        }
        assert(!uses(child, x.content)) by {
            assert(uses(node.children[k], x.content));
        }
        lemma_stays_recorded(own, child, child.children.len(), child_path, x.dir);
        lemma_stays_recorded(own, child, child.children.len(), child_path, x.content);
    } else if path.len() == 1 {
        assert(at + path =~= child_path);
        assert(!any_uses(child.children, child.dir));
        assert(!any_uses(child.children, child.content));
        lemma_stays_recorded(own, child, child.children.len(), child_path, x.dir);
        lemma_stays_recorded(own, child, child.children.len(), child_path, x.content);
    } else {
        let rest = path.drop_first();
        assert(named_like(child.children, section.children[k]));
        lemma_child_index(section.children[k].children, rest[0]);
        lemma_numbers_recorded(
            own,
            child,
            child.children.len(),
            child_path,
            section.children[k],
            rest,
        );
        assert(child_path + rest =~= at + path);
    }
}

/// The numbers of the section at `path` stand for its directory and its `content.md`.
pub proof fn law_numbers_stand_for_their_section(
    table: TableView,
    tree: TreeView,
    path: Seq<Seq<char>>,
)
    requires
        in_step(table, tree),
        proper_table(table),
        find_below(tree.root, path) is Some,
    ensures
        ({
            let x = numbers_of(table, tree, path);
            let paths = table.index.paths;
            &&& paths.contains_key(x.dir) && paths[x.dir] == PathView::Dir(path)
            &&& paths.contains_key(x.content) && paths[x.content] == PathView::Content(path)
        }),
{
    let shadow = table.shadow;
    let own = Index::none().record_section(Seq::empty(), shadow);
    let n = shadow.children.len();
    let x = numbers_of(table, tree, path);
    assert(proper(shadow));
    if path.len() == 0 {
        assert(path =~= Seq::empty());
        lemma_stays_recorded(own, shadow, n, Seq::empty(), x.dir);
        lemma_stays_recorded(own, shadow, n, Seq::empty(), x.content);
        assert(uses(shadow, x.dir) && uses(shadow, x.content));
    } else {
        lemma_child_index(tree.root.children, path[0]);
        lemma_numbers_recorded(own, shadow, n, Seq::empty(), tree.root, path);
        lemma_numbers_used(shadow.children, tree.root, path);
        assert(Seq::<Seq<char>>::empty() + path =~= path);
        assert(uses(shadow, x.dir) && uses(shadow, x.content));
    }
}

/// As long as sibling names differ, a section that is still found at its path after a change keeps
/// its numbers.
pub proof fn law_found_section_keeps_its_numbers(
    table: TableView,
    tree: TreeView,
    next: u64,
    tree2: TreeView,
    path: Seq<Seq<char>>,
)
    requires
        in_step(table, tree),
        distinct_names(tree.root),
        find_below(tree.root, path) is Some,
        find_below(tree2.root, path) is Some,
    ensures
        ({
            let x = numbers_of(table, tree, path);
            let y = numbers_of(synced(table, next, tree2).0, tree2, path);
            x.dir == y.dir && x.content == y.content
        }),
{
    if path.len() > 0 {
        let nodes = synced(table, next, tree2).0.shadow.children;
        let free = choose|free: u64|
            nodes == (#[trigger] renumbered(
                table.shadow.children,
                tree2.root,
                tree2.root.children.len(),
                free,
            )).0;
        lemma_path_keeps_numbers(table.shadow.children, tree.root, tree2.root, free, path);
    }
}

/// The blocks of `new` before their first heading, as they stand in the section at `path` of a file.
pub open spec fn new_content(f: FileView, path: Seq<Seq<char>>, new: Seq<BlockView>) -> Seq<
    BlockView,
> {
    spliced_in(f.document.take((f.section(path)->0).start), new).take(next_heading(new, 0))
}

/// The bytes of [`new_content`].
pub open spec fn new_bytes(f: FileView, path: Seq<Seq<char>>, new: Seq<BlockView>) -> Seq<u8> {
    encode_utf8(rendered(new_content(f, path, new)))
}

/// Whether the text of a new content would make front matter of the document.
pub open spec fn makes_front_matter(f: FileView, path: Seq<Seq<char>>, new: Seq<BlockView>) -> bool {
    (f.section(path)->0).start == 0 && front_matter_of(new) is Some
}

/// The section whose content was replaced is still at its path, and what was put in place is its
/// content, up to the first heading.
proof fn lemma_replaced_section(f: FileView, path: Seq<Seq<char>>, new: Seq<BlockView>)
    requires
        f.current(),
        f.shown is None,
        f.section(path) is Some,
        !makes_front_matter(f, path, new),
    ensures
        ({
            let s = f.section(path)->0;
            let document = reflowed(f.document, s.start, s.end, new);
            let t = find_below(tree_of(document).root, path);
            &&& t is Some
            &&& 0 <= (t->0).start <= (t->0).end <= document.len()
            &&& document.subrange((t->0).start, (t->0).end) == new_content(f, path, new)
        }),
{
    let bs = f.document;
    let root = tree_of(bs).root;
    let s = f.section(path)->0;
    let bs2 = reflowed(bs, s.start, s.end, new);
    let root2 = tree_of(bs2).root;
    let k = next_heading(new, 0);
    lemma_section_in_bounds(f, path);
    lemma_found_occurs(root, path);
    law_written_headings_become_directories(bs, s, new);
    law_splice_keeps_all_other_blocks(bs, s.start, s.end, new);
    let u = choose|u: SectionView| #[trigger]
        occurs(root2, u) && u.heading == s.heading && u.start == s.start && u.end == s.start + k;
    lemma_body_start_kept(bs, s, new);
    match s.heading {
        Some(h) => {
            lemma_placed(bs, s);
            let c2 = contents(bs2);
            let left = contents(bs.take(s.start));
            assert(bs2.len() == c2.len());
            assert forall|j: int| 0 <= j <= h implies alike(#[trigger] bs[j], bs2[j]) by {
                assert(c2[j] == left[j]);
            }
            law_changes_behind_a_heading_keep_its_path(bs, bs2, h, path);
            lemma_found_occurs(root2, path);
            law_a_heading_is_one_directory(bs2, find_below(root2, path)->0, u);
        },
        None => {
            if path.len() > 0 {
                lemma_child_index(root.children, path[0]);
                let m = child_index(root.children, path[0])->0;
                lemma_found_occurs(root.children[m], path.drop_first());
                lemma_sections_placed(bs, body_start(bs), bs.len() as int, Set::empty(), m, s);
            }
            assert(occurs(root2, root2));
            law_a_heading_is_one_directory(bs2, root2, u);
        },
    }
    let middle = spliced_in(bs.take(s.start), new);
    lemma_next_heading(new, 0);
    lemma_spliced_in_len(bs.take(s.start), new);
    assert(bs2.subrange(s.start, s.start + k) =~= middle.take(k));
}

/// Replacing the own content of a section keeps its number, and what was put in place is its
/// content, up to the first heading.
proof fn lemma_new_content_is_read_back(
    fs: FsView,
    ino: Ino,
    file: usize,
    path: Seq<Seq<char>>,
    new: Seq<BlockView>,
)
    requires
        fs.wf(),
        numbers_apart(fs),
        !fs.readonly,
        file < fs.files.len(),
        fs.path_for_ino(ino) == Some((file, PathView::Content(path))),
        fs.files[file as int].section(path) is Some,
        !makes_front_matter(fs.files[file as int], path, new),
        ({
            let f = fs.files[file as int];
            let s = f.section(path)->0;
            fs.rebuilt(file, reflowed(f.document, s.start, s.end, new)).next < u64::MAX
        }),
    ensures
        ({
            let f = fs.files[file as int];
            let s = f.section(path)->0;
            let after = fs.rebuilt(file, reflowed(f.document, s.start, s.end, new));
            &&& after.path_for_ino(ino) == fs.path_for_ino(ino)
            &&& !fs.scratch.contains_key(ino)
            &&& after.contents(ino) == Ok::<Seq<u8>, VfsError>(new_bytes(f, path, new))
        }),
{
    let f = fs.files[file as int];
    let s = f.section(path)->0;
    let document = reflowed(f.document, s.start, s.end, new);
    let after = fs.rebuilt(file, document);
    let g = after.files[file as int];
    assert(in_step(f.inodes, f.tree));
    law_shown_sibling_names_differ(f.document, f.shown);
    assert(f.shown is None);
    assert(proper_table(f.inodes));
    lemma_replaced_section(f, path, new);
    assert(table_uses(f.inodes, ino)) by {
        law_entries_are_the_numbers_in_use(f.inodes, ino);
    }
    assert(in_files(fs.files, ino)) by {
        assert(table_uses(fs.files[file as int].inodes, ino));
    }
    assert forall|x: u64| #[trigger] table_uses(f.inodes, x) implies x < fs.next by {
        assert(in_files(fs.files, x));
    }
    law_numbers_are_never_shared_or_reused(f.inodes, fs.next, tree_of(document));
    law_synced_table_is_in_step(f.inodes, fs.next, tree_of(document));
    law_numbers_stand_for_their_section(f.inodes, f.tree, path);
    law_numbers_stand_for_their_section(g.inodes, g.tree, path);
    law_found_section_keeps_its_numbers(f.inodes, f.tree, fs.next, g.tree, path);
    law_paths_lead_back(f.inodes, f.tree);
    let x = numbers_of(f.inodes, f.tree, path).content;
    assert(f.inodes.index.paths.contains_key(x));
    assert(f.inodes.index.paths.contains_key(ino));
    assert(x == ino);
    assert(g.inodes.index.paths.contains_key(ino));
    assert(after.owner.contains_key(ino) && after.owner[ino] == file);
}

/// What was written into a `content.md` is read back at once, under the same number: parsed, and
/// rendered where it stands, up to its first heading. The headings begin directories of their own.
/// This is so as long as the numbers do not run out, unless the text makes front matter of the
/// document.
pub proof fn law_content_gives_back_what_was_written(
    fs: FsView,
    ino: Ino,
    file: usize,
    path: Seq<Seq<char>>,
    offset: int,
    data: Seq<u8>,
    now: Timestamp,
)
    requires
        fs.wf(),
        numbers_apart(fs),
        !fs.readonly,
        fs.path_for_ino(ino) == Some((file, PathView::Content(path))),
        fs.files[file as int].section(path) is Some,
        ({
            let f = fs.files[file as int];
            let new = parsed(text_of(spliced(f.section_bytes(path), offset, data)));
            new is Ok && !makes_front_matter(f, path, new->Ok_0)
        }),
        fs.write(ino, offset, data, now).0.next < u64::MAX,
    ensures
        ({
            let f = fs.files[file as int];
            let new = parsed(text_of(spliced(f.section_bytes(path), offset, data)))->Ok_0;
            let (after, step) = fs.write(ino, offset, data, now);
            &&& step == (StepView::Save {
                file,
                next: NextView::Attr { ino, entry: PathView::Content(path) },
            })
            &&& after.path_for_ino(ino) == fs.path_for_ino(ino)
            &&& after.contents(ino) == Ok::<Seq<u8>, VfsError>(new_bytes(f, path, new))
        }),
{
    let f = fs.files[file as int];
    assert(fs.owner[ino] < fs.files.len());
    lemma_number_is_no_buffer(fs, ino, file);
    let new = parsed(text_of(spliced(f.section_bytes(path), offset, data)))->Ok_0;
    lemma_new_content_is_read_back(fs, ino, file, path, new);
}

proof fn lemma_number_is_no_buffer(fs: FsView, ino: Ino, file: usize)
    requires
        fs.wf(),
        numbers_apart(fs),
        file < fs.files.len(),
        fs.files[file as int].inodes.index.paths.contains_key(ino),
    ensures
        !fs.scratch.contains_key(ino),
{
    let f = fs.files[file as int];
    assert(in_step(f.inodes, f.tree));
    law_entries_are_the_numbers_in_use(f.inodes, ino);
    assert(table_uses(fs.files[file as int].inodes, ino));
    assert(in_files(fs.files, ino));
}

/// A buffer that is renamed to `content.md`, as editors save, becomes the content: it is read back at
/// once, under the number that the `content.md` has, parsed and rendered where it stands, up to its
/// first heading; and the buffer is gone once the file is saved. This is so as long as the numbers do
/// not run out, unless the text makes front matter of the document.
pub proof fn law_buffer_becomes_the_content(
    fs: FsView,
    from: Ino,
    name: Seq<char>,
    to: Ino,
    file: usize,
    path: Seq<Seq<char>>,
    ino: Ino,
    now: Timestamp,
)
    requires
        fs.wf(),
        numbers_apart(fs),
        !fs.readonly,
        fs.names.contains_key((from, name)),
        fs.scratch.contains_key(fs.names[(from, name)]),
        fs.dir_path(to) == Some((file, path)),
        fs.path_for_ino(ino) == Some((file, PathView::Content(path))),
        fs.files[file as int].section(path) is Some,
        ({
            let new = parsed(text_of(fs.scratch[fs.names[(from, name)]]));
            new is Ok && !makes_front_matter(fs.files[file as int], path, new->Ok_0)
        }),
        fs.rename(from, name, to, CONTENT_FILE@, now).0.next < u64::MAX,
    ensures
        ({
            let f = fs.files[file as int];
            let new = parsed(text_of(fs.scratch[fs.names[(from, name)]]))->Ok_0;
            let (after, step) = fs.rename(from, name, to, CONTENT_FILE@, now);
            let (end, last) = after.resumed(file, NextView::Forget { from, name }, now);
            &&& step == (StepView::Save { file, next: NextView::Forget { from, name } })
            &&& after.path_for_ino(ino) == fs.path_for_ino(ino)
            &&& after.contents(ino) == Ok::<Seq<u8>, VfsError>(new_bytes(f, path, new))
            &&& last == StepView::Finished(Ok(Reply::Done))
            &&& end.contents(ino) == after.contents(ino)
            &&& !end.names.contains_key((from, name))
            &&& !end.scratch.contains_key(fs.names[(from, name)])
        }),
{
    assert(fs.owner[ino] < fs.files.len());
    lemma_number_is_no_buffer(fs, ino, file);
    let new = parsed(text_of(fs.scratch[fs.names[(from, name)]]))->Ok_0;
    lemma_new_content_is_read_back(fs, ino, file, path, new);
}

/// A `content.md` that is renamed to itself stays as it is, and so does everything else.
pub proof fn law_content_renamed_to_itself_stays(fs: FsView, dir: Ino, now: Timestamp)
    requires
        !fs.readonly,
        fs.dir_path(dir) is Some,
        !fs.names.contains_key((dir, CONTENT_FILE@)),
    ensures
        fs.rename(dir, CONTENT_FILE@, dir, CONTENT_FILE@, now) == (
            fs,
            StepView::Finished(Ok(Reply::Done)),
        ),
{
}

/// No section's entry is front matter.
pub(crate) proof fn lemma_no_front_matter_below(
    index: Index,
    node: ShadowView,
    n: nat,
    path: Seq<Seq<char>>,
    x: u64,
)
    requires
        n <= node.children.len(),
        index.paths.contains_key(x) ==> !(index.paths[x] is FrontMatter),
    ensures
        ({
            let paths = indexed_below(index, node, n, path).paths;
            paths.contains_key(x) ==> !(paths[x] is FrontMatter)
        }),
    decreases node, n,
{
    if n > 0 {
        lemma_no_front_matter_below(index, node, (n - 1) as nat, path, x);
        let before = indexed_below(index, node, (n - 1) as nat, path);
        let child = node.children[n - 1];
        let child_path = path.push(child.name);
        lemma_no_front_matter_below(
            before.record_section(child_path, child),
            child,
            child.children.len(),
            child_path,
            x,
        );
    }
}

/// What was written into the front matter file is read back at once, under the same number, and if
/// it is UTF-8 then byte for byte.
pub proof fn law_front_matter_gives_back_what_was_written(
    fs: FsView,
    ino: Ino,
    file: usize,
    kind: FrontMatterKind,
    offset: int,
    data: Seq<u8>,
    now: Timestamp,
)
    requires
        fs.wf(),
        !fs.readonly,
        !fs.scratch.contains_key(ino),
        fs.path_for_ino(ino) == Some((file, PathView::FrontMatter(kind))),
    ensures
        ({
            let f = fs.files[file as int];
            let bytes = spliced(f.frontmatter_bytes(kind), offset, data);
            let (after, step) = fs.write(ino, offset, data, now);
            &&& step == (StepView::Save {
                file,
                next: NextView::Attr { ino, entry: PathView::FrontMatter(kind) },
            })
            &&& after.path_for_ino(ino) == fs.path_for_ino(ino)
            &&& after.contents(ino) == Ok::<Seq<u8>, VfsError>(encode_utf8(text_of(bytes)))
            &&& valid_utf8(bytes) ==> after.contents(ino) == Ok::<Seq<u8>, VfsError>(bytes)
        }),
{
    let f = fs.files[file as int];
    assert(fs.owner[ino] < fs.files.len());
    assert(in_step(f.inodes, f.tree));
    let shadow = f.inodes.shadow;
    lemma_no_front_matter_below(
        Index::none().record_section(Seq::empty(), shadow),
        shadow,
        shadow.children.len(),
        Seq::empty(),
        ino,
    );
    assert(f.inodes.front_matter == Some((kind, ino)));
    let bytes = spliced(f.frontmatter_bytes(kind), offset, data);
    let text = text_of(bytes);
    let bs = f.document;
    let b = with_front_matter(bs[0], text);
    let document = bs.update(0, b);
    assert(f.shown is None);
    assert(front_matter_of(bs) == Some((kind, 0int)));
    assert(document[0] == b);
    assert(front_matter_of(document) == Some((kind, 0int)));
    let after = fs.write(ino, offset, data, now).0;
    assert(after == fs.rebuilt(file, document));
    let g = after.files[file as int];
    assert(g.inodes.front_matter == Some((kind, ino)));
    assert(g.inodes.index.paths[ino] == PathView::FrontMatter(kind));
    assert(after.owner.contains_key(ino));
    assert(front_matter_text(b) == text);
    if valid_utf8(bytes) {
        decode_utf8_encode_utf8(bytes);
    }
}

} // verus!
