//! What a mount shows of its files.
use vstd::prelude::*;

use crate::document::CONTENT_FILE;
use crate::inode::{index_of, indexed_below, section_names, Index, PathView, ShadowView, TableView};
use crate::mount::{lemma_child_index, FileView};
use crate::naming::law_shown_sibling_names_differ;
use crate::numbering::{
    all_proper, any_uses, distinct_names, in_step, named_like, proper, proper_table, table_uses, uses,
};
use crate::section::{child_index, find_below, SectionView, TreeView};
use crate::state::{canonical_child, FsView};
use crate::uniqueness::{
    in_files, law_entries_are_the_numbers_in_use, lemma_indexed_keys, numbers_apart,
};
use crate::vfs::{DirEntryView, Ino, Timestamp, VfsError};

verus! {

proof fn lemma_index_grows(
    index: Index,
    node: ShadowView,
    n: nat,
    path: Seq<Seq<char>>,
    key: PathView,
)
    requires
        n <= node.children.len(),
        index.inos.contains_key(key),
    ensures
        indexed_below(index, node, n, path).inos.contains_key(key),
    decreases node, n,
{
    if n > 0 {
        lemma_index_grows(index, node, (n - 1) as nat, path, key);
        let before = indexed_below(index, node, (n - 1) as nat, path);
        let child = node.children[n - 1];
        let child_path = path.push(child.name);
        lemma_index_grows(
            before.record_section(child_path, child),
            child,
            child.children.len(),
            child_path,
            key,
        );
    }
}

proof fn lemma_indexed_has(
    index: Index,
    node: ShadowView,
    n: nat,
    path: Seq<Seq<char>>,
    section: SectionView,
    rest: Seq<Seq<char>>,
    k: int,
)
    requires
        n <= node.children.len(),
        named_like(node.children, section),
        rest.len() > 0,
        0 <= k < n,
        section.children[k].name == rest[0],
        find_below(section.children[k], rest.drop_first()) is Some,
    ensures
        indexed_below(index, node, n, path).inos.contains_key(PathView::Dir(path + rest)),
        indexed_below(index, node, n, path).inos.contains_key(PathView::Content(path + rest)),
    decreases node, n,
{
    let before = indexed_below(index, node, (n - 1) as nat, path);
    let child = node.children[n - 1];
    let child_path = path.push(child.name);
    let own = before.record_section(child_path, child);
    let dir = PathView::Dir(path + rest);
    let content = PathView::Content(path + rest);
    if k < n - 1 {
        lemma_indexed_has(index, node, (n - 1) as nat, path, section, rest, k);
        lemma_index_grows(own, child, child.children.len(), child_path, dir);
        lemma_index_grows(own, child, child.children.len(), child_path, content);
    } else {
        let more = rest.drop_first();
        let child_section = section.children[k];
        assert(child.name == rest[0]);
        assert(named_like(child.children, child_section));
        if more.len() == 0 {
            assert(path + rest =~= child_path);
            lemma_index_grows(own, child, child.children.len(), child_path, dir);
            lemma_index_grows(own, child, child.children.len(), child_path, content);
        } else {
            lemma_child_index(child_section.children, more[0]);
            let i = child_index(child_section.children, more[0])->0;
            lemma_indexed_has(
                own,
                child,
                child.children.len(),
                child_path,
                child_section,
                more,
                i,
            );
            assert(child_path + more =~= path + rest);
        }
    }
}

/// Every directory of a tree, and its `content.md`, has a number.
pub proof fn law_every_directory_has_numbers(
    table: TableView,
    tree: TreeView,
    path: Seq<Seq<char>>,
)
    requires
        in_step(table, tree),
        find_below(tree.root, path) is Some,
    ensures
        table.index.inos.contains_key(PathView::Dir(path)),
        table.index.inos.contains_key(PathView::Content(path)),
{
    let shadow = table.shadow;
    let own = Index::none().record_section(Seq::empty(), shadow);
    let n = shadow.children.len();
    if path.len() == 0 {
        assert(path =~= Seq::empty());
        lemma_index_grows(own, shadow, n, Seq::empty(), PathView::Dir(path));
        lemma_index_grows(own, shadow, n, Seq::empty(), PathView::Content(path));
    } else {
        lemma_child_index(tree.root.children, path[0]);
        let i = child_index(tree.root.children, path[0])->0;
        lemma_indexed_has(own, shadow, n, Seq::empty(), tree.root, path, i);
        assert(Seq::<Seq<char>>::empty() + path =~= path);
    }
}

/// The names of entries.
pub open spec fn entry_names(entries: Seq<DirEntryView>) -> Seq<Seq<char>> {
    Seq::new(entries.len(), |i: int| entries[i].name)
}

/// The name of the front matter file, in a file's root directory.
pub open spec fn front_matter_names(f: FileView, path: Seq<Seq<char>>) -> Seq<Seq<char>> {
    if path.len() == 0 && f.tree.front_matter is Some {
        seq![(f.tree.front_matter->0).0.spec_file_name()]
    } else {
        Seq::empty()
    }
}

proof fn lemma_child_names(
    f: FileView,
    path: Seq<Seq<char>>,
    section: SectionView,
    n: nat,
    now: Timestamp,
)
    requires
        in_step(f.inodes, f.tree),
        f.section(path) == Some(section),
        n <= section.children.len(),
    ensures
        entry_names(f.child_entries(path, section.children, n, now)) == Seq::new(
            n,
            |i: int| section.children[i].name,
        ),
    decreases n,
{
    let names = Seq::new(n, |i: int| section.children[i].name);
    if n > 0 {
        lemma_child_names(f, path, section, (n - 1) as nat, now);
        let name = section.children[n - 1].name;
        lemma_child_index(section.children, name);
        crate::fs::lemma_found_child(f.tree.root, path, name);
        law_every_directory_has_numbers(f.inodes, f.tree, path.push(name));
        let before = f.child_entries(path, section.children, (n - 1) as nat, now);
        let all = f.child_entries(path, section.children, n, now);
        assert(entry_names(all) =~= entry_names(before).push(name));
        assert(names =~= Seq::new((n - 1) as nat, |i: int| section.children[i].name).push(name));
    } else {
        assert(entry_names(f.child_entries(path, section.children, n, now)) =~= names);
    }
}

/// A directory lists its `content.md`, in a file's root directory the front matter, and every
/// subdirectory.
pub proof fn law_directory_lists_everything(
    f: FileView,
    dir: Ino,
    path: Seq<Seq<char>>,
    section: SectionView,
    now: Timestamp,
)
    requires
        in_step(f.inodes, f.tree),
        f.section(path) == Some(section),
    ensures
        entry_names(f.entries(dir, path, section, now)) == seq![CONTENT_FILE@]
            + front_matter_names(f, path) + Seq::new(
            section.children.len(),
            |i: int| section.children[i].name,
        ),
{
    let children = f.child_entries(path, section.children, section.children.len(), now);
    let front = f.frontmatter_entries(path, now);
    lemma_child_names(f, path, section, section.children.len(), now);
    if f.tree.front_matter is Some {
        let kind = (f.tree.front_matter->0).0;
        assert(f.inodes.index.inos.contains_key(PathView::FrontMatter(kind)));
    }
    assert(entry_names(front) =~= front_matter_names(f, path));
    let all = f.entries(dir, path, section, now);
    let names = seq![CONTENT_FILE@] + front_matter_names(f, path) + Seq::new(
        section.children.len(),
        |i: int| section.children[i].name,
    );
    assert(front.len() == entry_names(front).len());
    assert(children.len() == entry_names(children).len());
    assert forall|i: int| 0 <= i < all.len() implies entry_names(all)[i] == names[i] by {
        if i == 0 {
        } else if i < 1 + front.len() {
            assert(all[i] == front[i - 1]);
            assert(names[i] == entry_names(front)[i - 1]);
        } else {
            assert(all[i] == children[i - 1 - front.len()]);
            assert(names[i] == entry_names(children)[i - 1 - front.len()]);
        }
    }
    assert(entry_names(all) =~= names);
}

/// Every subdirectory that a directory lists can be looked up, unless its name is that of a file
/// that stands for part of the document.
pub proof fn law_listed_directories_can_be_looked_up(
    fs: FsView,
    parent: Ino,
    file: usize,
    path: Seq<Seq<char>>,
    name: Seq<char>,
)
    requires
        fs.wf(),
        !fs.dirs.contains_key(parent),
        fs.dir_path(parent) == Some((file, path)),
        fs.files[file as int].child_section(path, name) is Some,
        canonical_child(path, name) is None,
    ensures
        fs.lookup(parent, name) is Ok,
        fs.files[file as int].inodes.index.inos.contains_key(PathView::Dir(path.push(name))),
        fs.lookup(parent, name)->Ok_0 == fs.files[file as int].inodes.index.inos[PathView::Dir(
            path.push(name),
        )],
{
    let f = fs.files[file as int];
    assert(fs.owner[parent] < fs.files.len());
    crate::fs::lemma_found_child(f.tree.root, path, name);
    law_every_directory_has_numbers(f.inodes, f.tree, path.push(name));
}

/// Every directory of a file has a `content.md` that can be looked up.
pub proof fn law_content_can_be_looked_up(
    fs: FsView,
    parent: Ino,
    file: usize,
    path: Seq<Seq<char>>,
)
    requires
        fs.wf(),
        !fs.dirs.contains_key(parent),
        fs.dir_path(parent) == Some((file, path)),
        fs.files[file as int].section(path) is Some,
    ensures
        fs.lookup(parent, CONTENT_FILE@) is Ok,
        fs.lookup(parent, CONTENT_FILE@)->Ok_0
            == fs.files[file as int].inodes.index.inos[PathView::Content(path)],
{
    let f = fs.files[file as int];
    assert(fs.owner[parent] < fs.files.len());
    law_every_directory_has_numbers(f.inodes, f.tree, path);
}

/// Whether the number of every path leads back to the path.
pub open spec fn leads_back(index: Index) -> bool {
    forall|p: PathView| #[trigger]
        index.inos.contains_key(p) ==> index.paths.contains_key(index.inos[p])
            && index.paths[index.inos[p]] == p
}

proof fn lemma_recorded_leads_back(index: Index, path: PathView, ino: u64)
    requires
        leads_back(index),
        !index.paths.contains_key(ino),
    ensures
        leads_back(index.record(path, ino)),
{
    let after = index.record(path, ino);
    assert forall|p: PathView| #[trigger] after.inos.contains_key(p) implies after.paths.contains_key(
        after.inos[p],
    ) && after.paths[after.inos[p]] == p by {
        if p != path {
            assert(index.inos.contains_key(p));
        }
    }
}

proof fn lemma_indexed_leads_back(index: Index, node: ShadowView, n: nat, path: Seq<Seq<char>>)
    requires
        n <= node.children.len(),
        leads_back(index),
        all_proper(node.children),
        forall|x: u64| #[trigger]
            any_uses(node.children, x) ==> !index.paths.contains_key(x),
    ensures
        leads_back(indexed_below(index, node, n, path)),
    decreases node, n,
{
    if n > 0 {
        lemma_indexed_leads_back(index, node, (n - 1) as nat, path);
        let before = indexed_below(index, node, (n - 1) as nat, path);
        let child = node.children[n - 1];
        let child_path = path.push(child.name);
        assert(proper(child));
        assert forall|x: u64| #[trigger] uses(child, x) implies !before.paths.contains_key(x) by {
            lemma_indexed_keys(index, node, (n - 1) as nat, path, x);
            assert(any_uses(node.children, x));
            assert forall|k: int| 0 <= k < n - 1 implies !uses(#[trigger] node.children[k], x) by {
                assert(uses(node.children[n - 1], x));
            }
        }
        assert(uses(child, child.dir));
        assert(uses(child, child.content));
        lemma_recorded_leads_back(before, PathView::Dir(child_path), child.dir);
        let half = before.record(PathView::Dir(child_path), child.dir);
        lemma_recorded_leads_back(half, PathView::Content(child_path), child.content);
        let own = before.record_section(child_path, child);
        assert forall|x: u64| #[trigger] any_uses(child.children, x) implies !own.paths.contains_key(
            x,
        ) by {
            assert(uses(child, x));
        }
        lemma_indexed_leads_back(own, child, child.children.len(), child_path);
    }
}

/// The number of every entry of a file leads back to the entry.
pub proof fn law_numbers_lead_back(table: TableView)
    requires
        table.index == index_of(table.shadow, table.front_matter),
        proper_table(table),
    ensures
        leads_back(table.index),
{
    let shadow = table.shadow;
    let none = Index::none();
    lemma_recorded_leads_back(none, PathView::Dir(Seq::empty()), shadow.dir);
    let half = none.record(PathView::Dir(Seq::empty()), shadow.dir);
    lemma_recorded_leads_back(half, PathView::Content(Seq::empty()), shadow.content);
    let own = none.record_section(Seq::empty(), shadow);
    let n = shadow.children.len();
    lemma_indexed_leads_back(own, shadow, n, Seq::empty());
    if let Some((kind, ino)) = table.front_matter {
        lemma_indexed_keys(own, shadow, n, Seq::empty(), ino);
        lemma_recorded_leads_back(
            indexed_below(own, shadow, n, Seq::empty()),
            PathView::FrontMatter(kind),
            ino,
        );
    }
}

/// The names that lead to an entry of a section.
pub open spec fn names_of(p: PathView) -> Seq<Seq<char>> {
    match p {
        PathView::Dir(names) => names,
        PathView::Content(names) => names,
        PathView::FrontMatter(_) => Seq::empty(),
    }
}

/// Whether `p` lies below the directory at `path`.
pub open spec fn lies_below(p: PathView, path: Seq<Seq<char>>) -> bool {
    path.len() < names_of(p).len() && path.is_prefix_of(names_of(p))
}

/// Whether the path of every number leads back to the number.
pub open spec fn led_back(index: Index) -> bool {
    forall|x: u64| #[trigger]
        index.paths.contains_key(x) ==> index.inos.contains_key(index.paths[x])
            && index.inos[index.paths[x]] == x
}

/// The entries below a section are below one of its subsections, by name.
proof fn lemma_indexed_paths(
    index: Index,
    node: ShadowView,
    n: nat,
    path: Seq<Seq<char>>,
    p: PathView,
)
    requires
        n <= node.children.len(),
        indexed_below(index, node, n, path).inos.contains_key(p),
        !index.inos.contains_key(p),
    ensures
        lies_below(p, path),
        exists|k: int|
            0 <= k < n && (#[trigger] node.children[k]).name == names_of(p)[path.len() as int],
    decreases node, n,
{
    if n > 0 {
        let before = indexed_below(index, node, (n - 1) as nat, path);
        let child = node.children[n - 1];
        let child_path = path.push(child.name);
        let own = before.record_section(child_path, child);
        if before.inos.contains_key(p) {
            lemma_indexed_paths(index, node, (n - 1) as nat, path, p);
        } else {
            if !own.inos.contains_key(p) {
                lemma_indexed_paths(own, child, child.children.len(), child_path, p);
            } else {
                assert(names_of(p) == child_path);
            }
            let names = names_of(p);
            assert(child_path =~= names.subrange(0, child_path.len() as int));
            assert(names[path.len() as int] == child_path[path.len() as int]);
            assert(path =~= names.subrange(0, path.len() as int)) by {
                assert forall|i: int| 0 <= i < path.len() implies path[i] == names[i] by {
                    assert(child_path[i] == names[i]);
                }
            }
            assert(node.children[n - 1].name == names[path.len() as int]);
        }
    }
}

proof fn lemma_recorded_led_back(index: Index, path: PathView, ino: u64)
    requires
        led_back(index),
        !index.inos.contains_key(path),
    ensures
        led_back(index.record(path, ino)),
{
    let after = index.record(path, ino);
    assert forall|x: u64| #[trigger] after.paths.contains_key(x) implies after.inos.contains_key(
        after.paths[x],
    ) && after.inos[after.paths[x]] == x by {
        if x != ino {
            assert(index.paths.contains_key(x));
        }
    }
}

proof fn lemma_indexed_led_back(
    index: Index,
    node: ShadowView,
    n: nat,
    path: Seq<Seq<char>>,
    section: SectionView,
)
    requires
        n <= node.children.len(),
        led_back(index),
        named_like(node.children, section),
        distinct_names(section),
        forall|p: PathView| #[trigger] index.inos.contains_key(p) ==> !lies_below(p, path),
    ensures
        led_back(indexed_below(index, node, n, path)),
    decreases node, n,
{
    if n > 0 {
        lemma_indexed_led_back(index, node, (n - 1) as nat, path, section);
        let before = indexed_below(index, node, (n - 1) as nat, path);
        let child = node.children[n - 1];
        let child_section = section.children[n - 1];
        let child_path = path.push(child.name);
        let dir = PathView::Dir(child_path);
        let content = PathView::Content(child_path);
        assert(child.name == child_section.name);
        assert(named_like(child.children, child_section));
        assert(distinct_names(child_section));
        assert(path =~= child_path.subrange(0, path.len() as int));
        assert forall|p: PathView| #[trigger] before.inos.contains_key(p) implies !(
        child_path.len() <= names_of(p).len() && child_path.is_prefix_of(names_of(p))) by {
            let names = names_of(p);
            if child_path.len() <= names.len() && child_path.is_prefix_of(names) {
                assert(child_path =~= names.subrange(0, child_path.len() as int));
                assert(names[path.len() as int] == child_path[path.len() as int]);
                assert(path =~= names.subrange(0, path.len() as int)) by {
                    assert forall|i: int| 0 <= i < path.len() implies path[i] == names[i] by {
                        assert(child_path[i] == names[i]);
                    }
                }
                assert(lies_below(p, path));
                assert(!index.inos.contains_key(p));
                lemma_indexed_paths(index, node, (n - 1) as nat, path, p);
                let k = choose|k: int|
                    0 <= k < n - 1 && (#[trigger] node.children[k]).name == names[path.len() as int];
                let all = section_names(section.children);
                assert(all[k] == section.children[k].name);
                assert(all[n - 1] == section.children[n - 1].name);
                assert(false);
            }
        }
        assert(child_path =~= child_path.subrange(0, child_path.len() as int));
        assert(names_of(dir) == child_path && names_of(content) == child_path);
        lemma_recorded_led_back(before, dir, child.dir);
        lemma_recorded_led_back(before.record(dir, child.dir), content, child.content);
        let own = before.record_section(child_path, child);
        assert forall|p: PathView| #[trigger] own.inos.contains_key(p) implies !lies_below(
            p,
            child_path,
        ) by {
            if p != dir && p != content {
                assert(before.inos.contains_key(p));
            }
        }
        lemma_indexed_led_back(own, child, child.children.len(), child_path, child_section);
    }
}

/// As long as sibling names differ, the path of every entry of a file leads back to its number.
pub proof fn law_paths_lead_back(table: TableView, tree: TreeView)
    requires
        in_step(table, tree),
        distinct_names(tree.root),
    ensures
        led_back(table.index),
{
    let shadow = table.shadow;
    let none = Index::none();
    let dir = PathView::Dir(Seq::empty());
    let content = PathView::Content(Seq::empty());
    lemma_recorded_led_back(none, dir, shadow.dir);
    lemma_recorded_led_back(none.record(dir, shadow.dir), content, shadow.content);
    let own = none.record_section(Seq::empty(), shadow);
    let n = shadow.children.len();
    assert forall|p: PathView| #[trigger] own.inos.contains_key(p) implies !lies_below(
        p,
        Seq::empty(),
    ) by {
        assert(p == dir || p == content);
    }
    lemma_indexed_led_back(own, shadow, n, Seq::empty(), tree.root);
    if let Some((kind, ino)) = table.front_matter {
        let p = PathView::FrontMatter(kind);
        let sections = indexed_below(own, shadow, n, Seq::empty());
        if sections.inos.contains_key(p) {
            lemma_indexed_paths(own, shadow, n, Seq::empty(), p);
        }
        lemma_recorded_led_back(sections, p, ino);
    }
}

/// The directory above a section's directory that was looked up is the one it was looked up in.
pub proof fn law_directory_above_is_where_it_was_looked_up(
    fs: FsView,
    parent: Ino,
    file: usize,
    path: Seq<Seq<char>>,
    name: Seq<char>,
)
    requires
        fs.wf(),
        numbers_apart(fs),
        !fs.dirs.contains_key(parent),
        fs.dir_path(parent) == Some((file, path)),
        fs.files[file as int].child_section(path, name) is Some,
        canonical_child(path, name) is None,
    ensures
        fs.lookup(parent, name) is Ok,
        fs.dir_path(fs.lookup(parent, name)->Ok_0) == Some((file, path.push(name))),
        fs.parent_of(fs.lookup(parent, name)->Ok_0) == Ok::<Ino, VfsError>(parent),
{
    let f = fs.files[file as int];
    assert(fs.owner[parent] < fs.files.len());
    assert(in_step(f.inodes, f.tree));
    law_listed_directories_can_be_looked_up(fs, parent, file, path, name);
    let p = PathView::Dir(path.push(name));
    let c = f.inodes.index.inos[p];
    assert(proper_table(f.inodes));
    law_numbers_lead_back(f.inodes);
    law_shown_sibling_names_differ(f.document, f.shown);
    law_paths_lead_back(f.inodes, f.tree);
    law_entries_are_the_numbers_in_use(f.inodes, c);
    assert(table_uses(fs.files[file as int].inodes, c));
    assert(in_files(fs.files, c));
    assert(fs.owner.contains_key(c));
    assert(table_uses(fs.files[fs.owner[c] as int].inodes, c));
    assert(fs.owner[c] == file);
    assert(!fs.dirs.contains_key(c));
    assert(path.push(name).drop_last() =~= path);
    assert(f.inodes.index.paths.contains_key(parent));
}

} // verus!
