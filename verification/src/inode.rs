//! Inode numbers for the entries of a mounted file.
//!
//! Numbers stay with their entries when the tree is built anew: a section is found again under its
//! old name, and a single section left over on either side has been renamed. A number that was
//! given up is never handed out again, so a stale one cannot lead to another entry.
use rustc_hash::FxHashMap;
use vstd::prelude::*;

use crate::model::{group_views, views};
use crate::section::{
    lemma_section_children, FrontMatterKind, Section, SectionTree, SectionView, TreeView,
};
use crate::tables::{
    path_table, path_table_get, path_table_insert, path_table_new, table_get, table_insert,
    table_keys, PathKey,
};
use crate::text::same_text;

verus! {

/// The inode number of the mount's root.
pub const ROOT_INO: u64 = 1;

/// An entry of a mounted file.
#[derive(Debug, PartialEq, Eq, Hash)]
pub enum MountPath {
    /// The directory of a section.
    Dir(Vec<String>),
    /// The `content.md` in the directory of a section.
    Content(Vec<String>),
    /// The front matter file.
    FrontMatter(FrontMatterKind),
}

/// The mathematical value of a [`MountPath`].
pub enum PathView {
    Dir(Seq<Seq<char>>),
    Content(Seq<Seq<char>>),
    FrontMatter(FrontMatterKind),
}

impl View for MountPath {
    type V = PathView;

    open spec fn view(&self) -> PathView {
        match *self {
            MountPath::Dir(path) => PathView::Dir(views(path@)),
            MountPath::Content(path) => PathView::Content(views(path@)),
            MountPath::FrontMatter(kind) => PathView::FrontMatter(kind),
        }
    }
}

/// Whether two lists of names are the same.
pub fn same_names(a: &[String], b: &[String]) -> (r: bool)
    ensures
        r == (views(a@) == views(b@)),
{
    if a.len() != b.len() {
        assert(views(a@).len() != views(b@).len());
        return false;
    }
    let mut i: usize = 0;
    while i < a.len()
        invariant
            i <= a@.len() == b@.len(),
            forall|j: int| 0 <= j < i ==> a@[j]@ == b@[j]@,
        decreases a@.len() - i,
    {
        if !same_text(&a[i], &b[i]) {
            assert(views(a@)[i as int] != views(b@)[i as int]);
            return false;
        }
        i += 1;
    }
    assert(views(a@) =~= views(b@));
    true
}

/// Copies a list of names.
pub fn copy_names(names: &[String]) -> (r: Vec<String>)
    ensures
        views(r@) == views(names@),
{
    let mut r: Vec<String> = Vec::new();
    let mut i: usize = 0;
    while i < names.len()
        invariant
            i <= names@.len(),
            r@.len() == i,
            forall|j: int| 0 <= j < i ==> #[trigger] r@[j]@ == names@[j]@,
        decreases names@.len() - i,
    {
        r.push(names[i].clone());
        i += 1;
    }
    assert(views(r@) =~= views(names@));
    r
}

/// A list of names with one more at its end.
pub fn append_name(names: &[String], name: &str) -> (r: Vec<String>)
    ensures
        views(r@) == views(names@).push(name@),
{
    broadcast use group_views;

    let mut r = copy_names(names);
    r.push(name.to_string());
    r
}

impl Clone for MountPath {
    fn clone(&self) -> (r: MountPath)
        ensures
            r@ == self@,
    {
        match self {
            MountPath::Dir(path) => MountPath::Dir(copy_names(path)),
            MountPath::Content(path) => MountPath::Content(copy_names(path)),
            MountPath::FrontMatter(kind) => MountPath::FrontMatter(*kind),
        }
    }
}

impl MountPath {
    /// The key under which this path is stored.
    fn key(&self) -> (key: PathKey)
        ensures
            (key.0, views(key.1@)) == path_key(self@),
    {
        match self {
            MountPath::Dir(path) => (0, copy_names(path)),
            MountPath::Content(path) => (1, copy_names(path)),
            MountPath::FrontMatter(kind) => {
                let none: Vec<String> = Vec::new();
                assert(views(none@) =~= Seq::empty());
                match kind {
                    FrontMatterKind::Yaml => (2, none),
                    FrontMatterKind::Toml => (3, none),
                }
            },
        }
    }
}

/// The key under which `path` is stored.
pub open spec fn path_key(path: PathView) -> (u8, Seq<Seq<char>>) {
    match path {
        PathView::Dir(names) => (0, names),
        PathView::Content(names) => (1, names),
        PathView::FrontMatter(FrontMatterKind::Yaml) => (2, Seq::empty()),
        PathView::FrontMatter(FrontMatterKind::Toml) => (3, Seq::empty()),
    }
}

/// The numbers of one section, as they were handed out last.
#[derive(Debug)]
struct ShadowNode {
    name: String,
    dir_ino: u64,
    content_ino: u64,
    children: Vec<ShadowNode>,
}

/// The numbers of one section, and of the sections below it.
pub struct ShadowView {
    pub name: Seq<char>,
    pub dir: u64,
    pub content: u64,
    pub children: Seq<ShadowView>,
}

impl ShadowNode {
    spec fn model(self) -> ShadowView
        decreases self,
    {
        ShadowView {
            name: self.name@,
            dir: self.dir_ino,
            content: self.content_ino,
            children: Seq::new(
                self.children@.len(),
                |i: int|
                    if 0 <= i < self.children@.len() {
                        self.children@[i].model()
                    } else {
                        arbitrary()
                    },
            ),
        }
    }
}

impl View for ShadowNode {
    type V = ShadowView;

    closed spec fn view(&self) -> ShadowView {
        self.model()
    }
}

broadcast proof fn lemma_shadow_children(node: ShadowNode)
    ensures
        #[trigger] node@.children == views(node.children@),
{
    assert(node@.children =~= views(node.children@));
}

/// The entries of a mounted file: from path to number and back.
pub struct Index {
    pub inos: Map<PathView, u64>,
    pub paths: Map<u64, PathView>,
}

impl Index {
    /// An index without entries.
    pub open spec fn none() -> Index {
        Index { inos: Map::empty(), paths: Map::empty() }
    }

    /// One more entry.
    pub open spec fn record(self, path: PathView, ino: u64) -> Index {
        Index { inos: self.inos.insert(path, ino), paths: self.paths.insert(ino, path) }
    }

    /// The two entries of a section: its directory and its content.
    pub open spec fn record_section(self, path: Seq<Seq<char>>, node: ShadowView) -> Index {
        self.record(PathView::Dir(path), node.dir).record(PathView::Content(path), node.content)
    }
}

/// `index` with the entries of the first `n` subsections of `node`, and of everything below them.
/// `path` leads to `node`.
pub open spec fn indexed_below(
    index: Index,
    node: ShadowView,
    n: nat,
    path: Seq<Seq<char>>,
) -> Index
    decreases node, n,
    when n <= node.children.len()
{
    if n == 0 {
        index
    } else {
        let before = indexed_below(index, node, (n - 1) as nat, path);
        let child = node.children[n - 1];
        let child_path = path.push(child.name);
        indexed_below(
            before.record_section(child_path, child),
            child,
            child.children.len(),
            child_path,
        )
    }
}

/// The index of a mounted file.
pub open spec fn index_of(shadow: ShadowView, front_matter: Option<(FrontMatterKind, u64)>) -> Index {
    let sections = indexed_below(
        Index::none().record_section(Seq::empty(), shadow),
        shadow,
        shadow.children.len(),
        Seq::empty(),
    );
    match front_matter {
        Some((kind, ino)) => sections.record(PathView::FrontMatter(kind), ino),
        None => sections,
    }
}

/// The mathematical value of an [`InodeTable`].
pub struct TableView {
    pub shadow: ShadowView,
    pub front_matter: Option<(FrontMatterKind, u64)>,
    pub index: Index,
}

/// The number after `ino`; it stops at `u64::MAX`.
pub open spec fn next_ino_after(ino: u64) -> u64 {
    if ino < u64::MAX {
        (ino + 1) as u64
    } else {
        u64::MAX
    }
}

/// The names of sections that have numbers.
pub open spec fn shadow_names(nodes: Seq<ShadowView>) -> Seq<Seq<char>> {
    Seq::new(nodes.len(), |i: int| nodes[i].name)
}

/// The names of sections.
pub open spec fn section_names(nodes: Seq<SectionView>) -> Seq<Seq<char>> {
    Seq::new(nodes.len(), |i: int| nodes[i].name)
}

/// The last of `names` that is `name`.
pub open spec fn last_named(names: Seq<Seq<char>>, name: Seq<char>) -> Option<int>
    decreases names.len(),
{
    if names.len() == 0 {
        None
    } else if names.last() == name {
        Some(names.len() - 1)
    } else {
        last_named(names.drop_last(), name)
    }
}

/// The old section that the `k`-th new one continues under the same name: of equal names, the last
/// old one goes to the first new one.
pub open spec fn by_name(olds: Seq<Seq<char>>, news: Seq<Seq<char>>, k: int) -> Option<int> {
    if exists|j: int| 0 <= j < k && #[trigger] news[j] == news[k] {
        None
    } else {
        last_named(olds, news[k])
    }
}

/// Whether the `i`-th old section goes on under its name.
pub open spec fn continued(olds: Seq<Seq<char>>, news: Seq<Seq<char>>, i: int) -> bool {
    exists|k: int| 0 <= k < news.len() && #[trigger] by_name(olds, news, k) == Some(i)
}

/// Whether the `i`-th old section is the only one that does not go on under its name.
pub open spec fn only_old(olds: Seq<Seq<char>>, news: Seq<Seq<char>>, i: int) -> bool {
    &&& 0 <= i < olds.len()
    &&& forall|j: int| 0 <= j < olds.len() ==> (j != i <==> #[trigger] continued(olds, news, j))
}

/// Whether the `k`-th new section is the only one without an old section of its name.
pub open spec fn only_new(olds: Seq<Seq<char>>, news: Seq<Seq<char>>, k: int) -> bool {
    &&& 0 <= k < news.len()
    &&& forall|j: int| 0 <= j < news.len() ==> (j != k <==> #[trigger] by_name(olds, news, j) is Some)
}

/// The old section that the `k`-th new one continues: one of its name, or, where a single section
/// is left over on either side, that one under a new name.
pub open spec fn matched(olds: Seq<Seq<char>>, news: Seq<Seq<char>>, k: int) -> Option<int> {
    match by_name(olds, news, k) {
        Some(i) => Some(i),
        None => if only_new(olds, news, k) && exists|i: int| only_old(olds, news, i) {
            Some(choose|i: int| only_old(olds, news, i))
        } else {
            None
        },
    }
}

/// The numbers for the first `n` subsections of `parent`, where `olds` had them before, and the
/// next free number.
pub open spec fn renumbered(
    olds: Seq<ShadowView>,
    parent: SectionView,
    n: nat,
    next: u64,
) -> (Seq<ShadowView>, u64)
    decreases parent, n,
    when n <= parent.children.len()
{
    if n == 0 {
        (Seq::empty(), next)
    } else {
        let (before, free) = renumbered(olds, parent, (n - 1) as nat, next);
        let section = parent.children[n - 1];
        match matched(shadow_names(olds), section_names(parent.children), n - 1) {
            Some(i) => {
                let (children, after) = renumbered(
                    olds[i].children,
                    section,
                    section.children.len(),
                    free,
                );
                (
                    before.push(
                        ShadowView {
                            name: section.name,
                            dir: olds[i].dir,
                            content: olds[i].content,
                            children,
                        },
                    ),
                    after,
                )
            },
            None => {
                let content = next_ino_after(free);
                let (children, after) = renumbered(
                    Seq::empty(),
                    section,
                    section.children.len(),
                    next_ino_after(content),
                );
                (
                    before.push(ShadowView { name: section.name, dir: free, content, children }),
                    after,
                )
            },
        }
    }
}

/// A table brought up to date with `tree`, and the next free number.
pub open spec fn synced(table: TableView, next: u64, tree: TreeView) -> (TableView, u64) {
    let old = table.shadow;
    let (content, next1) = if old.content == 0 {
        (next, next_ino_after(next))
    } else {
        (old.content, next)
    };
    let (dir, next2) = if old.dir == 0 {
        (next1, next_ino_after(next1))
    } else {
        (old.dir, next1)
    };
    let (children, next3) = renumbered(
        old.children,
        tree.root,
        tree.root.children.len(),
        next2,
    );
    let shadow = ShadowView { name: Seq::empty(), dir, content, children };
    let (front_matter, next4) = match tree.front_matter {
        None => (None, next3),
        Some((kind, _)) => if table.front_matter is Some && (table.front_matter->0).0 == kind {
            (table.front_matter, next3)
        } else {
            (Some((kind, next3)), next_ino_after(next3))
        },
    };
    (TableView { shadow, front_matter, index: index_of(shadow, front_matter) }, next4)
}

/// The numbers of one mounted file.
pub struct InodeTable {
    shadow: ShadowNode,
    frontmatter: Option<(FrontMatterKind, u64)>,
    path_to_ino: FxHashMap<PathKey, u64>,
    ino_to_path: FxHashMap<u64, MountPath>,
}

/// The entries by path.
spec fn inos_by_path(table: FxHashMap<PathKey, u64>) -> Map<PathView, u64> {
    Map::new(
        |path: PathView| path_table(table).contains_key(path_key(path)),
        |path: PathView| path_table(table)[path_key(path)],
    )
}

/// The entries by number.
spec fn paths_by_ino(table: FxHashMap<u64, MountPath>) -> Map<u64, PathView> {
    table@.map_values(|path: MountPath| path@)
}

impl View for InodeTable {
    type V = TableView;

    closed spec fn view(&self) -> TableView {
        TableView {
            shadow: self.shadow@,
            front_matter: self.frontmatter,
            index: Index {
                inos: inos_by_path(self.path_to_ino),
                paths: paths_by_ino(self.ino_to_path),
            },
        }
    }
}

/// A table that was never brought up to date.
pub open spec fn empty_table() -> TableView {
    TableView {
        shadow: ShadowView { name: Seq::empty(), dir: 0, content: 0, children: Seq::empty() },
        front_matter: None,
        index: Index::none(),
    }
}

/// Hands out the next number.
pub fn take_ino(next_ino: &mut u64) -> (ino: u64)
    ensures
        ino == *old(next_ino),
        *final(next_ino) == next_ino_after(*old(next_ino)),
{
    let ino = *next_ino;
    *next_ino = ino.saturating_add(1);
    ino
}

fn find_last(before: &[ShadowNode], name: &str) -> (r: Option<usize>)
    ensures
        match last_named(shadow_names(views(before@)), name@) {
            Some(i) => r == Some(i as usize) && 0 <= i < before@.len(),
            None => r is None,
        },
{
    let ghost names = shadow_names(views(before@));
    let mut i: usize = before.len();
    assert(names.take(i as int) =~= names);
    while i > 0
        invariant
            i <= before@.len(),
            names == shadow_names(views(before@)),
            last_named(names, name@) == last_named(names.take(i as int), name@),
        decreases i,
    {
        assert(names.take(i as int).last() == before@[i - 1]@.name);
        assert(names.take(i as int).drop_last() =~= names.take(i - 1));
        assert(before@[i - 1]@.name == before@[i - 1].name@);
        if same_text(&before[i - 1].name, name) {
            return Some(i - 1);
        }
        i -= 1;
    }
    None
}

fn named_before(new: &[Section], k: usize) -> (r: bool)
    requires
        k < new@.len(),
    ensures
        r == exists|j: int|
            0 <= j < k && #[trigger] section_names(views(new@))[j] == section_names(views(new@))[k as int],
{
    let ghost names = section_names(views(new@));
    let mut j: usize = 0;
    while j < k
        invariant
            j <= k < new@.len(),
            names == section_names(views(new@)),
            forall|i: int| 0 <= i < j ==> #[trigger] names[i] != names[k as int],
        decreases k - j,
    {
        assert(names[j as int] == new@[j as int].name@);
        if same_text(&new[j].name, &new[k].name) {
            return true;
        }
        j += 1;
    }
    false
}

/// Whether `i` is the only number below `n` that does not occur in `found`.
spec fn misses_only(found: Seq<Option<usize>>, n: nat, i: usize) -> bool {
    &&& i < n
    &&& forall|j: usize| j < n ==> (j != i <==> #[trigger] found.contains(Some(j)))
}

/// Whether `k` is the only index at which `found` holds nothing.
spec fn empty_only(found: Seq<Option<usize>>, k: int) -> bool {
    &&& 0 <= k < found.len()
    &&& forall|j: int| 0 <= j < found.len() ==> (j != k <==> #[trigger] found[j] is Some)
}

/// The only number below `n` that does not occur in `found`.
fn only_missing(found: &Vec<Option<usize>>, n: usize) -> (r: Option<usize>)
    ensures
        match r {
            Some(i) => misses_only(found@, n as nat, i),
            None => forall|i: usize| !misses_only(found@, n as nat, i),
        },
{
    let mut missing: Option<usize> = None;
    let mut i: usize = 0;
    while i < n
        invariant
            i <= n,
            match missing {
                Some(m) => m < i && forall|j: usize|
                    j < i ==> (j != m <==> #[trigger] found@.contains(Some(j))),
                None => forall|j: usize| j < i ==> #[trigger] found@.contains(Some(j)),
            },
        decreases n - i,
    {
        let mut hit = false;
        let mut k: usize = 0;
        while k < found.len()
            invariant
                k <= found@.len(),
                hit == exists|j: int| 0 <= j < k && #[trigger] found@[j] == Some(i),
            decreases found@.len() - k,
        {
            if let Some(x) = found[k] {
                if x == i {
                    hit = true;
                    assert(found@[k as int] == Some(i));
                }
            }
            k += 1;
        }
        assert(hit == found@.contains(Some(i)));
        if !hit {
            if let Some(m) = missing {
                proof {
                    assert forall|x: usize| !misses_only(found@, n as nat, x) by {
                        if m != x {
                            assert(!found@.contains(Some(m)));
                        } else {
                            assert(!found@.contains(Some(i)));
                        }
                    }
                }
                return None;
            }
            missing = Some(i);
        }
        i += 1;
    }
    proof {
        if missing is None {
            assert forall|x: usize| !misses_only(found@, n as nat, x) by {
                if x < n {
                    assert(found@.contains(Some(x)));
                }
            }
        }
    }
    missing
}

/// The only index at which `found` holds nothing.
fn only_empty(found: &Vec<Option<usize>>) -> (r: Option<usize>)
    ensures
        match r {
            Some(k) => empty_only(found@, k as int),
            None => forall|k: int| !empty_only(found@, k),
        },
{
    let mut empty: Option<usize> = None;
    let mut i: usize = 0;
    while i < found.len()
        invariant
            i <= found@.len(),
            match empty {
                Some(e) => e < i && forall|j: int|
                    0 <= j < i ==> (j != e <==> #[trigger] found@[j] is Some),
                None => forall|j: int| 0 <= j < i ==> #[trigger] found@[j] is Some,
            },
        decreases found@.len() - i,
    {
        if found[i].is_none() {
            if let Some(e) = empty {
                proof {
                    assert forall|k: int| !empty_only(found@, k) by {
                        if e != k {
                            assert(found@[e as int] is None);
                        } else {
                            assert(found@[i as int] is None);
                        }
                    }
                }
                return None;
            }
            empty = Some(i);
        }
        i += 1;
    }
    proof {
        if empty is None {
            assert forall|k: int| !empty_only(found@, k) by {
                if 0 <= k < found@.len() {
                    assert(found@[k] is Some);
                }
            }
        }
    }
    empty
}

/// An index into old sections as an executable number.
spec fn as_usize(i: Option<int>) -> Option<usize> {
    match i {
        Some(i) => Some(i as usize),
        None => None,
    }
}

/// Finds for each new section the old one that it continues.
fn match_children(before: &[ShadowNode], new: &[Section]) -> (r: Vec<Option<usize>>)
    ensures
        r@.len() == new@.len(),
        forall|k: int|
            0 <= k < new@.len() ==> match matched(
                shadow_names(views(before@)),
                section_names(views(new@)),
                k,
            ) {
                Some(i) => 0 <= i < before@.len() && #[trigger] r@[k] == Some(i as usize),
                None => r@[k] is None,
            },
{
    let ghost olds = shadow_names(views(before@));
    let ghost news = section_names(views(new@));
    let n = before.len();
    let mut found: Vec<Option<usize>> = Vec::new();
    let mut k: usize = 0;
    while k < new.len()
        invariant
            k <= new@.len(),
            n == before@.len(),
            found@.len() == k,
            olds == shadow_names(views(before@)),
            news == section_names(views(new@)),
            forall|j: int|
                0 <= j < k ==> match by_name(olds, news, j) {
                    Some(i) => 0 <= i < before@.len() && #[trigger] found@[j] == Some(i as usize),
                    None => found@[j] is None,
                },
        decreases new@.len() - k,
    {
        assert(news[k as int] == new@[k as int].name@);
        let hit = if named_before(new, k) {
            None
        } else {
            find_last(before, &new[k].name)
        };
        found.push(hit);
        k += 1;
    }
    let ghost direct = found@;
    proof {
        assert forall|i: usize| i < before@.len() implies #[trigger] direct.contains(Some(i))
            == continued(olds, news, i as int) by {
            if direct.contains(Some(i)) {
                let k = choose|k: int| 0 <= k < direct.len() && direct[k] == Some(i);
                assert(by_name(olds, news, k) == Some(i as int));
            }
            if continued(olds, news, i as int) {
                let k = choose|k: int|
                    0 <= k < news.len() && #[trigger] by_name(olds, news, k) == Some(i as int);
                assert(direct[k] == Some(i));
            }
        }
        assert forall|j: int| 0 <= j < news.len() implies (#[trigger] direct[j] is Some)
            == (by_name(olds, news, j) is Some) by {}
    }
    let lone_old = only_missing(&found, n);
    let lone_new = only_empty(&found);
    proof {
        lemma_only_old(olds, news, direct, before@.len(), lone_old);
        lemma_only_new(olds, news, direct, lone_new);
    }
    if let (Some(i), Some(k)) = (lone_old, lone_new) {
        proof {
            assert(only_old(olds, news, i as int));
            let c = choose|c: int| only_old(olds, news, c);
            assert(only_old(olds, news, c));
            assert(c == i) by {
                if c != i {
                    assert(continued(olds, news, c));
                }
            }
        }
        found.set(k, Some(i));
    }
    proof {
        assert forall|j: int| 0 <= j < new@.len() implies match matched(olds, news, j) {
            Some(i) => 0 <= i < before@.len() && #[trigger] found@[j] == Some(i as usize),
            None => found@[j] is None,
        } by {
            assert(direct[j] == as_usize(by_name(olds, news, j)));
        }
    }
    found
}

proof fn lemma_only_old(
    olds: Seq<Seq<char>>,
    news: Seq<Seq<char>>,
    direct: Seq<Option<usize>>,
    n: nat,
    lone: Option<usize>,
)
    requires
        n == olds.len() <= usize::MAX,
        forall|i: usize|
            i < n ==> #[trigger] direct.contains(Some(i)) == continued(olds, news, i as int),
        match lone {
            Some(i) => misses_only(direct, n, i),
            None => forall|i: usize| !misses_only(direct, n, i),
        },
    ensures
        match lone {
            Some(i) => only_old(olds, news, i as int),
            None => !exists|i: int| only_old(olds, news, i),
        },
{
    match lone {
        Some(i) => {
            assert forall|j: int| 0 <= j < olds.len() implies (j != i <==> #[trigger] continued(
                olds,
                news,
                j,
            )) by {
                assert(direct.contains(Some(j as usize)) == continued(olds, news, j));
            }
        },
        None => {
            if exists|i: int| only_old(olds, news, i) {
                let i = choose|i: int| only_old(olds, news, i);
                assert forall|j: usize| j < n implies (j != i as usize
                    <==> #[trigger] direct.contains(Some(j))) by {
                    assert(direct.contains(Some(j)) == continued(olds, news, j as int));
                }
                assert(misses_only(direct, n, i as usize));
            }
        },
    }
}

proof fn lemma_only_new(
    olds: Seq<Seq<char>>,
    news: Seq<Seq<char>>,
    direct: Seq<Option<usize>>,
    lone: Option<usize>,
)
    requires
        direct.len() == news.len(),
        forall|j: int|
            0 <= j < news.len() ==> (#[trigger] direct[j] is Some) == (by_name(olds, news, j) is Some),
        match lone {
            Some(k) => empty_only(direct, k as int),
            None => forall|k: int| !empty_only(direct, k),
        },
    ensures
        match lone {
            Some(k) => only_new(olds, news, k as int) && forall|j: int|
                j != k ==> !only_new(olds, news, j),
            None => forall|j: int| !only_new(olds, news, j),
        },
{
    assert forall|k: int|
        0 <= k < news.len() && (lone is None || lone->0 != k) implies !#[trigger] only_new(
        olds,
        news,
        k,
    ) by {
        if only_new(olds, news, k) {
            assert forall|j: int| 0 <= j < direct.len() implies (j != k <==> #[trigger] direct[j]
                is Some) by {
                assert((by_name(olds, news, j) is Some) == (direct[j] is Some));
            }
            assert(empty_only(direct, k));
            if lone is Some {
                assert(direct[lone->0 as int] is None);
            }
        }
    }
    if lone is Some {
        let k = lone->0 as int;
        assert forall|j: int| 0 <= j < news.len() implies (j != k <==> #[trigger] by_name(
            olds,
            news,
            j,
        ) is Some) by {
            assert((direct[j] is Some) == (by_name(olds, news, j) is Some));
        }
    }
}

/// Numbers the subsections of `parent`, which had the numbers of `before`.
fn sync_children(next_ino: &mut u64, before: &[ShadowNode], parent: &Section) -> (r: Vec<ShadowNode>)
    ensures
        (views(r@), *final(next_ino)) == renumbered(
            views(before@),
            parent@,
            parent@.children.len(),
            *old(next_ino),
        ),
    decreases parent,
{
    broadcast use {group_views, lemma_section_children, lemma_shadow_children};

    let ghost next = *next_ino;
    let matches = match_children(before, &parent.children);
    let mut r: Vec<ShadowNode> = Vec::new();
    let mut k: usize = 0;
    assert(views(r@) =~= Seq::empty());
    while k < parent.children.len()
        invariant
            k <= parent.children@.len(),
            matches@.len() == parent.children@.len(),
            forall|k: int|
                0 <= k < parent.children@.len() ==> match matched(
                    shadow_names(views(before@)),
                    section_names(parent@.children),
                    k,
                ) {
                    Some(i) => 0 <= i < before@.len() && #[trigger] matches@[k] == Some(i as usize),
                    None => matches@[k] is None,
                },
            (views(r@), *next_ino) == renumbered(views(before@), parent@, k as nat, next),
        decreases parent.children@.len() - k,
    {
        broadcast use {group_views, lemma_section_children, lemma_shadow_children};

        let section = &parent.children[k];
        assert(parent@.children[k as int] == section@);
        let node = match matches[k] {
            Some(i) => {
                let node = &before[i];
                assert(views(before@)[i as int].children == views(node.children@));
                let children = sync_children(next_ino, &node.children, section);
                ShadowNode {
                    name: section.name.clone(),
                    dir_ino: node.dir_ino,
                    content_ino: node.content_ino,
                    children,
                }
            },
            None => {
                let dir_ino = take_ino(next_ino);
                let content_ino = take_ino(next_ino);
                let none: Vec<ShadowNode> = Vec::new();
                assert(views(none@) =~= Seq::empty());
                let children = sync_children(next_ino, &none, section);
                ShadowNode { name: section.name.clone(), dir_ino, content_ino, children }
            },
        };
        assert(node@.children == views(node.children@));
        r.push(node);
        k += 1;
    }
    r
}

impl Default for InodeTable {
    /// A table that was never brought up to date.
    fn default() -> (table: InodeTable)
        ensures
            table@ == empty_table(),
    {
        InodeTable::new()
    }
}

impl InodeTable {
    /// A table that was never brought up to date.
    pub fn new() -> (table: InodeTable)
        ensures
            table@ == empty_table(),
    {
        let shadow = ShadowNode {
            name: String::new(),
            dir_ino: 0,
            content_ino: 0,
            children: Vec::new(),
        };
        let table = InodeTable {
            shadow,
            frontmatter: None,
            path_to_ino: path_table_new(),
            ino_to_path: FxHashMap::default(),
        };
        proof {
            assert(table.shadow@.children =~= Seq::empty());
            assert(table.shadow@.name =~= Seq::empty());
            assert(table@.index.inos =~= Map::empty());
            assert(table@.index.paths =~= Map::empty());
        }
        table
    }

    /// The number of `path`.
    pub fn ino_for(&self, path: &MountPath) -> (ino: Option<u64>)
        ensures
            ino == self@.index.inos.get(path@),
    {
        path_table_get(&self.path_to_ino, &path.key())
    }

    /// The path with the number `ino`.
    pub fn path_for(&self, ino: u64) -> (path: Option<&MountPath>)
        ensures
            match self@.index.paths.get(ino) {
                Some(p) => path is Some && path->0@ == p,
                None => path is None,
            },
    {
        table_get(&self.ino_to_path, ino)
    }

    /// The number of the file's root directory; 0 before the table was first brought up to date.
    pub fn root_dir_ino(&self) -> (ino: u64)
        ensures
            ino == self@.shadow.dir,
    {
        self.shadow.dir_ino
    }

    /// All numbers with their paths, each number once, in no particular order.
    pub fn entries(&self) -> (entries: Vec<(u64, &MountPath)>)
        ensures
            forall|i: int, j: int|
                0 <= i < j < entries@.len() ==> #[trigger] entries@[i].0 != #[trigger] entries@[j].0,
            forall|i: int|
                0 <= i < entries@.len() ==> self@.index.paths.contains_key(
                    (#[trigger] entries@[i]).0,
                ) && entries@[i].1@ == self@.index.paths[entries@[i].0],
            forall|ino: u64| #[trigger]
                self@.index.paths.contains_key(ino) ==> exists|i: int|
                    0 <= i < entries@.len() && (#[trigger] entries@[i]).0 == ino,
    {
        let keys = table_keys(&self.ino_to_path);
        let mut entries: Vec<(u64, &MountPath)> = Vec::new();
        let mut i: usize = 0;
        while i < keys.len()
            invariant
                i <= keys@.len(),
                entries@.len() == i,
                forall|key: u64|
                    keys@.contains(key) == #[trigger] self.ino_to_path@.contains_key(key),
                forall|j: int| 0 <= j < i ==> (#[trigger] entries@[j]).0 == keys@[j],
                forall|j: int|
                    0 <= j < i ==> self.ino_to_path@.contains_key((#[trigger] entries@[j]).0)
                        && entries@[j].1 == self.ino_to_path@[entries@[j].0],
            decreases keys@.len() - i,
        {
            assert(keys@.contains(keys@[i as int]));
            if let Some(path) = table_get(&self.ino_to_path, keys[i]) {
                entries.push((keys[i], path));
            }
            i += 1;
        }
        proof {
            assert forall|ino: u64| #[trigger]
                self@.index.paths.contains_key(ino) implies exists|i: int|
                0 <= i < entries@.len() && (#[trigger] entries@[i]).0 == ino by {
                assert(keys@.contains(ino));
                let k = choose|k: int| 0 <= k < keys@.len() && keys@[k] == ino;
                assert(entries@[k].0 == ino);
            }
        }
        entries
    }

    /// Brings the table up to date with `tree`: sections that still exist keep their numbers.
    /// `next_ino` counts over all mounted files, so that numbers are unique in the whole mount.
    pub fn sync(&mut self, next_ino: &mut u64, tree: &SectionTree)
        ensures
            (final(self)@, *final(next_ino)) == synced(old(self)@, *old(next_ino), tree@),
    {
        broadcast use {lemma_section_children, lemma_shadow_children};

        let content_ino = if self.shadow.content_ino == 0 {
            take_ino(next_ino)
        } else {
            self.shadow.content_ino
        };
        let dir_ino = if self.shadow.dir_ino == 0 {
            take_ino(next_ino)
        } else {
            self.shadow.dir_ino
        };
        let children = sync_children(next_ino, &self.shadow.children, &tree.root);
        let shadow = ShadowNode { name: String::new(), dir_ino, content_ino, children };
        assert(shadow@.name =~= Seq::empty());
        assert(shadow@.children == views(shadow.children@));
        let frontmatter = match tree.front_matter {
            None => None,
            Some((kind, _)) => match self.frontmatter {
                Some((old_kind, ino)) if old_kind == kind => Some((kind, ino)),
                _ => Some((kind, take_ino(next_ino))),
            },
        };
        self.path_to_ino = path_table_new();
        self.ino_to_path.clear();
        proof {
            assert(self@.index.inos =~= Map::empty());
            assert(self@.index.paths =~= Map::empty());
        }
        let none: Vec<String> = Vec::new();
        assert(views(none@) =~= Seq::empty());
        self.record(MountPath::Dir(copy_names(&none)), dir_ino);
        self.record(MountPath::Content(copy_names(&none)), content_ino);
        self.record_below(&shadow, &none);
        if let Some((kind, ino)) = frontmatter {
            self.record(MountPath::FrontMatter(kind), ino);
        }
        self.shadow = shadow;
        self.frontmatter = frontmatter;
    }

    fn record(&mut self, path: MountPath, ino: u64)
        ensures
            final(self)@ == (TableView {
                index: old(self)@.index.record(path@, ino),
                ..old(self)@
            }),
    {
        let ghost before = self@;
        path_table_insert(&mut self.path_to_ino, path.key(), ino);
        table_insert(&mut self.ino_to_path, ino, path);
        proof {
            lemma_path_key_injective();
            assert(self@.index.inos =~= before.index.inos.insert(path@, ino));
            assert(self@.index.paths =~= before.index.paths.insert(ino, path@));
        }
    }

    fn record_below(&mut self, node: &ShadowNode, path: &[String])
        ensures
            final(self)@ == (TableView {
                index: indexed_below(
                    old(self)@.index,
                    node@,
                    node@.children.len(),
                    views(path@),
                ),
                ..old(self)@
            }),
        decreases node,
    {
        broadcast use lemma_shadow_children;

        let ghost before = self@;
        let mut k: usize = 0;
        while k < node.children.len()
            invariant
                k <= node.children@.len(),
                self@ == (TableView {
                    index: indexed_below(before.index, node@, k as nat, views(path@)),
                    ..before
                }),
            decreases node.children@.len() - k,
        {
            broadcast use lemma_shadow_children;

            let child = &node.children[k];
            assert(node@.children[k as int] == child@);
            let child_path = append_name(path, &child.name);
            self.record(MountPath::Dir(copy_names(&child_path)), child.dir_ino);
            self.record(MountPath::Content(copy_names(&child_path)), child.content_ino);
            self.record_below(child, &child_path);
            k += 1;
        }
    }
}

proof fn lemma_path_key_injective()
    ensures
        forall|a: PathView, b: PathView| path_key(a) == path_key(b) ==> a == b,
{
}

} // verus!
