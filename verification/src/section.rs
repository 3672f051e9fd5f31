//! The directory tree of a document: every heading is a directory.
use core::ops::Range;

use vstd::prelude::*;

use crate::block::{Block, BlockView, Content, ContentView};
use crate::model::{group_views, views};
use crate::names::{seen_after, unique, unique_name, SeenNames};
use crate::text::same_text;

verus! {

/// The two formats of front matter.
#[derive(Debug, Clone, Copy, PartialEq, Eq, Hash, Structural)]
pub enum FrontMatterKind {
    Yaml,
    Toml,
}

impl FrontMatterKind {
    /// The file name under which front matter of this kind is shown.
    pub open spec fn spec_file_name(self) -> Seq<char> {
        match self {
            FrontMatterKind::Yaml => "_frontmatter.yaml"@,
            FrontMatterKind::Toml => "_frontmatter.toml"@,
        }
    }

    /// The file name under which front matter of this kind is shown.
    pub fn file_name(self) -> (name: &'static str)
        ensures
            name@ == self.spec_file_name(),
    {
        match self {
            FrontMatterKind::Yaml => "_frontmatter.yaml",
            FrontMatterKind::Toml => "_frontmatter.toml",
        }
    }
}

/// A directory in the mounted view: the document root or a heading.
#[derive(Debug, PartialEq, Eq)]
pub struct Section {
    /// The directory name; empty for the root.
    pub name: String,
    /// The heading depth; 0 for the root.
    pub depth: u8,
    /// The index of the heading block; `None` for the root.
    pub heading_index: Option<usize>,
    /// The blocks of this section's own `content.md`: everything after the heading up to, but not
    /// including, the very next heading of any depth.
    pub own_content_range: Range<usize>,
    /// The subdirectories, in document order.
    pub children: Vec<Section>,
}

/// The mathematical value of a [`Section`].
pub struct SectionView {
    pub name: Seq<char>,
    pub depth: u8,
    pub heading: Option<int>,
    pub start: int,
    pub end: int,
    pub children: Seq<SectionView>,
}

impl Section {
    /// The mathematical value of this section.
    pub open spec fn model(self) -> SectionView
        decreases self,
    {
        SectionView {
            name: self.name@,
            depth: self.depth,
            heading: match self.heading_index {
                Some(i) => Some(i as int),
                None => None,
            },
            start: self.own_content_range.start as int,
            end: self.own_content_range.end as int,
            children: Seq::new(
                self.children@.len(),
                |i: int|
                    if 0 <= i < self.children@.len() {
                        self.children@[i].model()
                    } else {
                        arbitrary()
                    },
            ),
        }
    }
}

impl View for Section {
    type V = SectionView;

    open spec fn view(&self) -> SectionView {
        self.model()
    }
}

/// The directory tree of a document, with its front matter.
#[derive(Debug, PartialEq, Eq)]
pub struct SectionTree {
    /// The kind of the front matter and the index of its block.
    pub front_matter: Option<(FrontMatterKind, usize)>,
    pub root: Section,
}

/// The mathematical value of a [`SectionTree`].
pub struct TreeView {
    pub front_matter: Option<(FrontMatterKind, int)>,
    pub root: SectionView,
}

impl View for SectionTree {
    type V = TreeView;

    open spec fn view(&self) -> TreeView {
        TreeView {
            front_matter: match self.front_matter {
                Some((kind, i)) => Some((kind, i as int)),
                None => None,
            },
            root: self.root@,
        }
    }
}

/// The index of the first heading at or after `from`, or the number of blocks.
pub open spec fn next_heading(bs: Seq<BlockView>, from: int) -> int
    decreases bs.len() - from,
{
    if from >= bs.len() {
        bs.len() as int
    } else if bs[from].is_heading() {
        from
    } else {
        next_heading(bs, from + 1)
    }
}

/// The index of the first heading in `from..to` that is at most `depth` deep, or `to`.
pub open spec fn closing_heading(bs: Seq<BlockView>, from: int, to: int, depth: u8) -> int
    decreases to - from,
{
    if from >= to {
        to
    } else if bs[from].is_heading() && bs[from].depth() <= depth {
        from
    } else {
        closing_heading(bs, from + 1, to, depth)
    }
}

/// The directories for the headings in `from..to`, in document order, below a directory whose
/// names so far are those in `seen`. A heading contains the headings that follow it up to the
/// next one that is not deeper; its own content ends at the next heading of any depth.
pub open spec fn sections(
    bs: Seq<BlockView>,
    from: int,
    to: int,
    seen: Set<Seq<char>>,
) -> Seq<SectionView>
    decreases to - from,
{
    if from >= to {
        Seq::empty()
    } else if !bs[from].is_heading() {
        sections(bs, from + 1, to, seen)
    } else {
        let end = closing_heading(bs, from + 1, to, bs[from].depth());
        proof {
            lemma_closing_heading(bs, from + 1, to, bs[from].depth());
        }
        seq![heading_section(bs, from, unique(seen, bs[from].title()), sections(
            bs,
            from + 1,
            end,
            Set::empty(),
        ))] + sections(bs, end, to, seen_after(seen, bs[from].title()))
    }
}

/// The directory for the heading at `i`.
pub open spec fn heading_section(
    bs: Seq<BlockView>,
    i: int,
    name: Seq<char>,
    children: Seq<SectionView>,
) -> SectionView {
    SectionView {
        name,
        depth: bs[i].depth(),
        heading: Some(i),
        start: i + 1,
        end: next_heading(bs, i + 1),
        children,
    }
}

/// The front matter of a document: its first block, if that is YAML or TOML.
pub open spec fn front_matter_of(bs: Seq<BlockView>) -> Option<(FrontMatterKind, int)> {
    if bs.len() == 0 {
        None
    } else {
        match bs[0].content {
            ContentView::Yaml(_) => Some((FrontMatterKind::Yaml, 0)),
            ContentView::Toml(_) => Some((FrontMatterKind::Toml, 0)),
            _ => None,
        }
    }
}

/// Where the root's own content begins: behind the front matter.
pub open spec fn body_start(bs: Seq<BlockView>) -> int {
    if front_matter_of(bs) is Some {
        1
    } else {
        0
    }
}

/// The directory tree of a document.
pub open spec fn tree_of(bs: Seq<BlockView>) -> TreeView {
    TreeView {
        front_matter: front_matter_of(bs),
        root: SectionView {
            name: Seq::empty(),
            depth: 0,
            heading: None,
            start: body_start(bs),
            end: next_heading(bs, body_start(bs)),
            children: sections(bs, body_start(bs), bs.len() as int, Set::empty()),
        },
    }
}

/// The first of `children` that is called `name`.
pub open spec fn child_index(children: Seq<SectionView>, name: Seq<char>) -> Option<int>
    decreases children.len(),
{
    if children.len() == 0 {
        None
    } else if children[0].name == name {
        Some(0)
    } else {
        match child_index(children.drop_first(), name) {
            Some(i) => Some(i + 1),
            None => None,
        }
    }
}

/// The directory that is reached from `section` by following `path`.
pub open spec fn find_below(section: SectionView, path: Seq<Seq<char>>) -> Option<SectionView>
    decreases path.len(),
{
    if path.len() == 0 {
        Some(section)
    } else {
        match child_index(section.children, path[0]) {
            Some(i) => find_below(section.children[i], path.drop_first()),
            None => None,
        }
    }
}

impl SectionView {
    /// Where the subtree of this section ends: behind its last subsection, or behind its own
    /// content.
    pub open spec fn subtree_end(self) -> int
        decreases self,
    {
        if self.children.len() == 0 {
            self.end
        } else {
            self.children[self.children.len() - 1].subtree_end()
        }
    }

    /// The deepest heading depth in this section, itself included.
    pub open spec fn max_depth(self) -> u8
        decreases self, self.children.len() + 1,
    {
        self.max_depth_of_first(self.children.len())
    }

    /// The deepest of this section's depth and its first `n` subsections.
    pub open spec fn max_depth_of_first(self, n: nat) -> u8
        decreases self, n,
        when n <= self.children.len()
    {
        if n == 0 {
            self.depth
        } else {
            let before = self.max_depth_of_first((n - 1) as nat);
            let child = self.children[n - 1].max_depth();
            if child > before {
                child
            } else {
                before
            }
        }
    }

    /// Whether `rmdir` may remove this directory: it has no subdirectory and no content.
    pub open spec fn removable(self) -> bool {
        self.children.len() == 0 && self.start >= self.end
    }
}

/// [`closing_heading`] stays in bounds.
pub proof fn lemma_closing_heading(bs: Seq<BlockView>, from: int, to: int, depth: u8)
    requires
        from <= to,
    ensures
        from <= closing_heading(bs, from, to, depth) <= to,
    decreases to - from,
{
    if from < to && !(bs[from].is_heading() && bs[from].depth() <= depth) {
        lemma_closing_heading(bs, from + 1, to, depth);
    }
}

/// [`next_heading`] stays in bounds.
pub proof fn lemma_next_heading(bs: Seq<BlockView>, from: int)
    requires
        from <= bs.len(),
    ensures
        from <= next_heading(bs, from) <= bs.len(),
    decreases bs.len() - from,
{
    if from < bs.len() && !bs[from].is_heading() {
        lemma_next_heading(bs, from + 1);
    }
}

/// A section's subdirectories are those of its value.
pub broadcast proof fn lemma_section_children(section: Section)
    ensures
        #[trigger] section@.children == views(section.children@),
{
    assert(section@.children =~= views(section.children@));
}

fn copy_section(section: &Section) -> (r: Section)
    ensures
        r@ == section@,
    decreases section,
{
    broadcast use {group_views, lemma_section_children};

    let mut children: Vec<Section> = Vec::new();
    let mut i: usize = 0;
    while i < section.children.len()
        invariant
            i <= section.children@.len(),
            views(children@) == section@.children.take(i as int),
        decreases section.children@.len() - i,
    {
        broadcast use {group_views, lemma_section_children};

        let child = copy_section(&section.children[i]);
        assert(section@.children[i as int] == section.children@[i as int]@);
        children.push(child);
        i += 1;
        assert(views(children@) =~= section@.children.take(i as int));
    }
    let r = Section {
        name: section.name.clone(),
        depth: section.depth,
        heading_index: section.heading_index,
        own_content_range: section.own_content_range.start..section.own_content_range.end,
        children,
    };
    assert(r@.children =~= section@.children);
    r
}

impl Clone for Section {
    fn clone(&self) -> (r: Section)
        ensures
            r@ == self@,
    {
        copy_section(self)
    }
}

impl Clone for SectionTree {
    fn clone(&self) -> (r: SectionTree)
        ensures
            r@ == self@,
    {
        SectionTree { front_matter: self.front_matter, root: self.root.clone() }
    }
}

fn find_next_heading(blocks: &[Block], from: usize) -> (r: usize)
    requires
        from <= blocks@.len(),
    ensures
        r == next_heading(views(blocks@), from as int),
        from <= r <= blocks@.len(),
{
    let mut i: usize = from;
    while i < blocks.len() && !blocks[i].is_heading()
        invariant
            from <= i <= blocks@.len(),
            next_heading(views(blocks@), i as int) == next_heading(views(blocks@), from as int),
        decreases blocks@.len() - i,
    {
        i += 1;
    }
    i
}

/// Finds the first heading in `from..to` that is at most `depth` deep, or `to`.
pub(crate) fn find_closing_heading(blocks: &[Block], from: usize, to: usize, depth: u8) -> (r: usize)
    requires
        from <= to <= blocks@.len(),
    ensures
        r == closing_heading(views(blocks@), from as int, to as int, depth),
        from <= r <= to,
{
    let mut i: usize = from;
    while i < to
        invariant
            from <= i <= to <= blocks@.len(),
            closing_heading(views(blocks@), i as int, to as int, depth) == closing_heading(
                views(blocks@),
                from as int,
                to as int,
                depth,
            ),
        decreases to - i,
    {
        if let Content::Heading { depth: d, .. } = &blocks[i].content {
            if *d <= depth {
                return i;
            }
        }
        i += 1;
    }
    i
}

/// Builds the directories for the headings in `from..to`.
fn build_level(blocks: &[Block], from: usize, to: usize) -> (out: Vec<Section>)
    requires
        from <= to <= blocks@.len(),
    ensures
        views(out@) == sections(views(blocks@), from as int, to as int, Set::empty()),
    decreases to - from,
{
    broadcast use {group_views, lemma_section_children};

    let ghost bs = views(blocks@);
    let mut seen = SeenNames::new();
    let mut out: Vec<Section> = Vec::new();
    let mut i: usize = from;
    assert(views(out@) + sections(bs, i as int, to as int, seen@) =~= sections(
        bs,
        i as int,
        to as int,
        seen@,
    ));
    while i < to
        invariant
            from <= i <= to <= blocks@.len(),
            bs == views(blocks@),
            views(out@) + sections(bs, i as int, to as int, seen@) == sections(
                bs,
                from as int,
                to as int,
                Set::empty(),
            ),
        decreases to - i,
    {
        broadcast use {group_views, lemma_section_children};

        if let Content::Heading { depth, title, .. } = &blocks[i].content {
            let ghost seen_before = seen@;
            let end = find_closing_heading(blocks, i + 1, to, *depth);
            let name = unique_name(&mut seen, title);
            let children = build_level(blocks, i + 1, end);
            let section = Section {
                name,
                depth: *depth,
                heading_index: Some(i),
                own_content_range: i + 1..find_next_heading(blocks, i + 1),
                children,
            };
            let ghost v = section@;
            assert(v.children == views(section.children@));
            let ghost before = views(out@);
            out.push(section);
            proof {
                assert(v == heading_section(
                    bs,
                    i as int,
                    unique(seen_before, bs[i as int].title()),
                    sections(bs, i + 1, end as int, Set::empty()),
                ));
                assert(before.push(v) + sections(bs, end as int, to as int, seen@) =~= before + (
                seq![v] + sections(bs, end as int, to as int, seen@)));
            }
            i = end;
        } else {
            i += 1;
        }
    }
    assert(views(out@) + Seq::<SectionView>::empty() =~= views(out@));
    out
}

impl Section {
    /// Whether `rmdir` may remove this directory: it has no subdirectory and its `content.md` is
    /// empty.
    pub fn is_removable(&self) -> (r: bool)
        ensures
            r == self@.removable(),
    {
        self.children.len() == 0 && self.own_content_range.start >= self.own_content_range.end
    }

    /// The end of this section's entire subtree.
    pub fn subtree_end(&self) -> (r: usize)
        ensures
            r == self@.subtree_end(),
        decreases self,
    {
        broadcast use lemma_section_children;

        let n = self.children.len();
        if n == 0 {
            self.own_content_range.end
        } else {
            self.children[n - 1].subtree_end()
        }
    }

    /// The deepest heading depth in this section's subtree, itself included.
    pub fn max_depth(&self) -> (r: u8)
        ensures
            r == self@.max_depth(),
        decreases self,
    {
        broadcast use lemma_section_children;

        let mut deepest: u8 = self.depth;
        let mut i: usize = 0;
        while i < self.children.len()
            invariant
                i <= self.children@.len(),
                deepest == self@.max_depth_of_first(i as nat),
            decreases self.children@.len() - i,
        {
            broadcast use lemma_section_children;

            let d = self.children[i].max_depth();
            if d > deepest {
                deepest = d;
            }
            i += 1;
        }
        deepest
    }

    /// The first subdirectory that is called `name`.
    pub fn child(&self, name: &str) -> (r: Option<&Section>)
        ensures
            match child_index(self@.children, name@) {
                Some(i) => r is Some && r->0@ == self@.children[i],
                None => r is None,
            },
    {
        broadcast use lemma_section_children;

        let mut i: usize = 0;
        assert(self@.children.skip(0) =~= self@.children);
        while i < self.children.len()
            invariant
                i <= self.children@.len(),
                child_index(self@.children, name@) == (match child_index(
                    self@.children.skip(i as int),
                    name@,
                ) {
                    Some(j) => Some(j + i),
                    None => None,
                }),
            decreases self.children@.len() - i,
        {
            broadcast use lemma_section_children;

            let child = &self.children[i];
            assert(self@.children.skip(i as int)[0] == child@);
            if same_text(&child.name, name) {
                return Some(child);
            }
            assert(self@.children.skip(i as int).drop_first() =~= self@.children.skip(i + 1));
            i += 1;
        }
        None
    }
}

impl SectionTree {
    /// Builds the directory tree of a document.
    pub fn build(blocks: &[Block]) -> (tree: SectionTree)
        ensures
            tree@ == tree_of(views(blocks@)),
    {
        broadcast use lemma_section_children;

        let front_matter = if blocks.len() == 0 {
            None
        } else {
            match &blocks[0].content {
                Content::Yaml(_) => Some((FrontMatterKind::Yaml, 0usize)),
                Content::Toml(_) => Some((FrontMatterKind::Toml, 0usize)),
                _ => None,
            }
        };
        let start: usize = if front_matter.is_some() {
            1
        } else {
            0
        };
        let root = Section {
            name: String::new(),
            depth: 0,
            heading_index: None,
            own_content_range: start..find_next_heading(blocks, start),
            children: build_level(blocks, start, blocks.len()),
        };
        assert(root@.children == views(root.children@));
        assert(root@.name =~= Seq::empty());
        SectionTree { front_matter, root }
    }

    /// Finds the directory at `path`, a list of names from the root. The empty path is the root.
    pub fn find(&self, path: &[&str]) -> (r: Option<&Section>)
        ensures
            match find_below(self@.root, views(path@)) {
                Some(section) => r is Some && r->0@ == section,
                None => r is None,
            },
    {
        let mut current = &self.root;
        let mut i: usize = 0;
        assert(views(path@).skip(0) =~= views(path@));
        while i < path.len()
            invariant
                i <= path@.len(),
                find_below(current@, views(path@).skip(i as int)) == find_below(
                    self@.root,
                    views(path@),
                ),
            decreases path@.len() - i,
        {
            assert(views(path@).skip(i as int)[0] == path@[i as int]@);
            assert(views(path@).skip(i as int).drop_first() =~= views(path@).skip(i + 1));
            match current.child(path[i]) {
                Some(child) => {
                    current = child;
                },
                None => {
                    return None;
                },
            }
            i += 1;
        }
        Some(current)
    }

    /// Finds the directory at `path`, as [`SectionTree::find`] does.
    pub fn find_names(&self, path: &[String]) -> (r: Option<&Section>)
        ensures
            match find_below(self@.root, views(path@)) {
                Some(section) => r is Some && r->0@ == section,
                None => r is None,
            },
    {
        self.find(&slices(path))
    }
}

/// A list of names as string slices.
fn slices(names: &[String]) -> (r: Vec<&str>)
    ensures
        views(r@) == views(names@),
{
    let mut r: Vec<&str> = Vec::new();
    let mut i: usize = 0;
    while i < names.len()
        invariant
            i <= names@.len(),
            r@.len() == i,
            forall|j: int| 0 <= j < i ==> #[trigger] r@[j]@ == names@[j]@,
        decreases names@.len() - i,
    {
        r.push(names[i].as_str());
        i += 1;
    }
    assert(views(r@) =~= views(names@));
    r
}

} // verus!
