//! A Markdown document as a list of blocks, and the edits that a mounted view makes to it.
//!
//! The directory tree is always a fresh view of the block list. An edit splices the list; the tree
//! is then derived again.
use core::ops::Range;

use mq_markdown::Node;
use vstd::prelude::*;

use crate::block::{
    parse_blocks, parsed, render_blocks, rendered, text_node, text_node_of, Block, BlockView,
    Content, ContentView,
};
use crate::model::{group_views, views};
use crate::outline::{lemma_outside, lemma_placed, occurs, well_placed};
use crate::reflow::{reflowed, splice_with_reflow};
use crate::section::{
    child_index, closing_heading, find_closing_heading, lemma_section_children, tree_of, Section,
    SectionTree, SectionView, TreeView,
};

verus! {

/// The file name of a section's own body.
pub const CONTENT_FILE: &'static str = "content.md";

/// The deepest heading that Markdown has.
pub const MAX_DEPTH: u8 = 6;

/// Why an edit was refused.
#[derive(Debug)]
pub enum MutationError {
    /// A heading of this name already exists in the directory.
    AlreadyExists(String),
    /// The directory is not empty.
    NotEmpty,
    /// The section is no heading.
    NotADirectory,
    /// The new text is not Markdown; the parser's message.
    Parse(String),
    /// A heading cannot move into its own subtree.
    WouldCreateCycle,
    /// The heading would be nested deeper than Markdown can express.
    TooDeep,
}

/// The mathematical value of a [`MutationError`].
pub enum Refusal {
    AlreadyExists(Seq<char>),
    NotEmpty,
    NotADirectory,
    Parse(Seq<char>),
    WouldCreateCycle,
    TooDeep,
}

impl View for MutationError {
    type V = Refusal;

    open spec fn view(&self) -> Refusal {
        match *self {
            MutationError::AlreadyExists(name) => Refusal::AlreadyExists(name@),
            MutationError::NotEmpty => Refusal::NotEmpty,
            MutationError::NotADirectory => Refusal::NotADirectory,
            MutationError::Parse(message) => Refusal::Parse(message@),
            MutationError::WouldCreateCycle => Refusal::WouldCreateCycle,
            MutationError::TooDeep => Refusal::TooDeep,
        }
    }
}

/// A document: its top-level blocks.
#[derive(Debug)]
pub struct Document {
    pub blocks: Vec<Block>,
}

impl View for Document {
    type V = Seq<BlockView>;

    open spec fn view(&self) -> Seq<BlockView> {
        views(self.blocks@)
    }
}

/// What an edit of `bs` leaves behind: the new blocks, or why it was refused.
pub open spec fn edited(
    bs: Seq<BlockView>,
    after: Seq<BlockView>,
    result: Result<(), MutationError>,
    outcome: Result<Seq<BlockView>, Refusal>,
) -> bool {
    match outcome {
        Ok(new) => result is Ok && after == new,
        Err(refusal) => result is Err && result->Err_0@ == refusal && after == bs,
    }
}

/// The value of front matter, or nothing for any other block.
pub open spec fn front_matter_text(b: BlockView) -> Seq<char> {
    match b.content {
        ContentView::Yaml(value) => value,
        ContentView::Toml(value) => value,
        _ => Seq::empty(),
    }
}

/// `b` with another front matter value, if it is front matter.
pub open spec fn with_front_matter(b: BlockView, value: Seq<char>) -> BlockView {
    match b.content {
        ContentView::Yaml(_) => BlockView { content: ContentView::Yaml(value), ..b },
        ContentView::Toml(_) => BlockView { content: ContentView::Toml(value), ..b },
        _ => b,
    }
}

/// A new heading without a position.
pub open spec fn new_heading(depth: u8, title: Seq<char>) -> BlockView {
    BlockView {
        content: ContentView::Heading { depth, title, markup: seq![text_node_of(title)] },
        span: None,
    }
}

/// `b` with a plain text title, if it is a heading.
pub open spec fn retitled(b: BlockView, title: Seq<char>) -> BlockView {
    match b.content {
        ContentView::Heading { depth, .. } => BlockView {
            content: ContentView::Heading { depth, title, markup: seq![text_node_of(title)] },
            ..b
        },
        _ => b,
    }
}

/// `b`, `shift` levels deeper, if it is a heading.
pub open spec fn deepened(b: BlockView, shift: int) -> BlockView {
    match b.content {
        ContentView::Heading { depth, title, markup } => BlockView {
            content: ContentView::Heading { depth: (depth + shift) as u8, title, markup },
            ..b
        },
        _ => b,
    }
}

/// A subtree that goes elsewhere: all headings `shift` levels deeper, the first with a new title.
pub open spec fn relocated(bs: Seq<BlockView>, shift: int, title: Seq<char>) -> Seq<BlockView> {
    Seq::new(
        bs.len(),
        |i: int|
            if i == 0 {
                retitled(deepened(bs[i], shift), title)
            } else {
                deepened(bs[i], shift)
            },
    )
}

/// The depth of a heading directly below `parent`.
pub open spec fn depth_below(parent: SectionView) -> u8 {
    if parent.depth < u8::MAX {
        (parent.depth + 1) as u8
    } else {
        u8::MAX
    }
}

/// Putting `body` in place of the blocks `start..end`.
pub open spec fn replaced(bs: Seq<BlockView>, start: int, end: int, body: Seq<char>) -> Result<
    Seq<BlockView>,
    Refusal,
> {
    match parsed(body) {
        Ok(new) => Ok(reflowed(bs, start, end, new)),
        Err(message) => Err(Refusal::Parse(message)),
    }
}

/// Where a subtree whose heading is `depth` deep goes below a section whose own content goes up to
/// `end`: behind that content, and behind the deeper headings there, which it would take over
/// otherwise.
pub open spec fn place_below(bs: Seq<BlockView>, end: int, depth: u8) -> int {
    closing_heading(bs, end, bs.len() as int, depth)
}

/// Adding an empty subheading `name` to `parent`.
pub open spec fn inserted(bs: Seq<BlockView>, parent: SectionView, name: Seq<char>) -> Result<
    Seq<BlockView>,
    Refusal,
> {
    let depth = depth_below(parent);
    let at = place_below(bs, parent.end, depth);
    if child_index(parent.children, name) is Some {
        Err(Refusal::AlreadyExists(name))
    } else if depth > MAX_DEPTH {
        Err(Refusal::TooDeep)
    } else {
        Ok(reflowed(bs, at, at, seq![new_heading(depth, name)]))
    }
}

/// Giving `section` another title.
pub open spec fn renamed(bs: Seq<BlockView>, section: SectionView, name: Seq<char>) -> Result<
    Seq<BlockView>,
    Refusal,
> {
    match section.heading {
        Some(i) => Ok(bs.update(i, retitled(bs[i], name))),
        None => Err(Refusal::NotADirectory),
    }
}

/// Taking out the empty `section`.
pub open spec fn removed(bs: Seq<BlockView>, section: SectionView) -> Result<
    Seq<BlockView>,
    Refusal,
> {
    if !section.removable() {
        Err(Refusal::NotEmpty)
    } else {
        match section.heading {
            Some(i) => Ok(reflowed(bs, i, i + 1, Seq::empty())),
            None => Err(Refusal::NotADirectory),
        }
    }
}

/// How much deeper `section` is under `parent` than where it stands.
pub open spec fn depth_shift(section: SectionView, parent: SectionView) -> int {
    parent.depth + 1 - section.depth
}

/// Where the own content of `parent` ends once the subtree of `section` is taken out.
pub open spec fn end_without(section: SectionView, parent: SectionView) -> int {
    if parent.end <= section.heading->0 {
        parent.end
    } else {
        parent.end - (section.subtree_end() - section.heading->0)
    }
}

/// Moving the subtree of `section` under `parent`, as `name`.
pub open spec fn reparented(
    bs: Seq<BlockView>,
    section: SectionView,
    parent: SectionView,
    name: Seq<char>,
) -> Result<Seq<BlockView>, Refusal> {
    if child_index(parent.children, name) is Some {
        Err(Refusal::AlreadyExists(name))
    } else {
        match section.heading {
            None => Err(Refusal::NotADirectory),
            Some(start) => {
                let end = section.subtree_end();
                let shift = depth_shift(section, parent);
                if parent.heading is Some && start <= parent.heading->0 < end {
                    Err(Refusal::WouldCreateCycle)
                } else if section.max_depth() + shift > MAX_DEPTH {
                    Err(Refusal::TooDeep)
                } else {
                    let rest = reflowed(bs, start, end, Seq::empty());
                    let at = place_below(
                        rest,
                        end_without(section, parent),
                        depth_below(parent),
                    );
                    Ok(reflowed(rest, at, at, relocated(bs.subrange(start, end), shift, name)))
                }
            },
        }
    }
}

/// Whether the heading of `s`, or one below it, is among those to keep.
pub open spec fn matches_within(s: SectionView, keep: Seq<bool>) -> bool
    decreases s,
{
    (s.heading is Some && 0 <= s.heading->0 < keep.len() && keep[s.heading->0]) || exists|k: int|
        0 <= k < s.children.len() && matches_within(#[trigger] s.children[k], keep)
}

/// `s` with only those sections below it that lead to a heading to keep.
pub open spec fn pruned(s: SectionView, keep: Seq<bool>) -> SectionView
    decreases s, s.children.len() + 1,
{
    SectionView { children: pruned_first(s, s.children.len(), keep), ..s }
}

/// What stays of the first `n` subsections of `s`.
pub open spec fn pruned_first(s: SectionView, n: nat, keep: Seq<bool>) -> Seq<SectionView>
    decreases s, n,
    when n <= s.children.len()
{
    if n == 0 {
        Seq::empty()
    } else {
        let before = pruned_first(s, (n - 1) as nat, keep);
        let child = s.children[n - 1];
        if matches_within(child, keep) {
            before.push(pruned(child, keep))
        } else {
            before
        }
    }
}

/// The directory tree of a document of which only some headings are shown.
pub open spec fn filtered_tree(bs: Seq<BlockView>, keep: Seq<bool>) -> TreeView {
    TreeView { root: pruned(tree_of(bs).root, keep), ..tree_of(bs) }
}

/// A section stays where it, or something below it, is to be kept: a pruned section has no
/// subsections exactly where nothing below it is to be kept.
proof fn lemma_pruned_first(s: SectionView, n: nat, keep: Seq<bool>)
    requires
        n <= s.children.len(),
    ensures
        pruned_first(s, n, keep).len() > 0 <==> exists|k: int|
            0 <= k < n && matches_within(#[trigger] s.children[k], keep),
    decreases n,
{
    if n > 0 {
        lemma_pruned_first(s, (n - 1) as nat, keep);
        if matches_within(s.children[n - 1], keep) {
            assert(pruned_first(s, n, keep).len() > 0);
        } else if pruned_first(s, n, keep).len() > 0 {
            let k = choose|k: int|
                0 <= k < n - 1 && matches_within(#[trigger] s.children[k], keep);
            assert(matches_within(s.children[k], keep));
        }
    }
}

/// Prunes the sections below `section`, and tells whether something in it is to be kept.
fn prune(section: &Section, keep: &Vec<bool>) -> (r: (Section, bool))
    ensures
        r.0@ == pruned(section@, keep@),
        r.1 == matches_within(section@, keep@),
    decreases section,
{
    broadcast use {group_views, lemma_section_children};

    let mut children: Vec<Section> = Vec::new();
    let mut i: usize = 0;
    while i < section.children.len()
        invariant
            i <= section.children@.len(),
            views(children@) == pruned_first(section@, i as nat, keep@),
        decreases section.children@.len() - i,
    {
        broadcast use {group_views, lemma_section_children};

        let (child, kept) = prune(&section.children[i], keep);
        assert(section@.children[i as int] == section.children@[i as int]@);
        if kept {
            children.push(child);
        }
        i += 1;
    }
    let below = children.len() > 0;
    let own = match section.heading_index {
        Some(h) => h < keep.len() && keep[h],
        None => false,
    };
    proof {
        lemma_pruned_first(section@, section@.children.len(), keep@);
        assert(below == (views(children@).len() > 0));
    }
    let r = Section {
        name: section.name.clone(),
        depth: section.depth,
        heading_index: section.heading_index,
        own_content_range: section.own_content_range.start..section.own_content_range.end,
        children,
    };
    assert(r@.children == views(r.children@));
    (r, own || below)
}

fn shift_depth(depth: u8, section_depth: u8, parent_depth: u8) -> (r: u8)
    requires
        section_depth <= depth,
        depth + parent_depth + 1 - section_depth <= MAX_DEPTH,
    ensures
        r == depth + parent_depth + 1 - section_depth,
{
    depth - section_depth + parent_depth + 1
}

/// A heading whose title is plain text.
fn plain_heading(depth: u8, title: &str) -> (content: Content)
    ensures
        content@ == new_heading(depth, title@).content,
{
    let mut markup: Vec<Node> = Vec::new();
    markup.push(text_node(title));
    assert(markup@ =~= seq![text_node_of(title@)]);
    Content::Heading { depth, title: title.to_string(), markup }
}

impl Document {
    /// Parses a Markdown text.
    pub fn parse(source: &str) -> (r: Result<Document, MutationError>)
        ensures
            match parsed(source@) {
                Ok(bs) => r is Ok && r->Ok_0@ == bs,
                Err(message) => r is Err && r->Err_0@ == Refusal::Parse(message),
            },
    {
        match parse_blocks(source) {
            Ok(blocks) => Ok(Document { blocks }),
            Err(message) => Err(MutationError::Parse(message)),
        }
    }

    /// The directory tree.
    pub fn tree(&self) -> (tree: SectionTree)
        ensures
            tree@ == tree_of(self@),
    {
        SectionTree::build(&self.blocks)
    }

    /// The directory tree without the sections that neither are to be kept nor have a subsection
    /// that is. `keep` tells of each block whether it is a heading to keep. The root always stays.
    pub fn tree_keeping(&self, keep: &Vec<bool>) -> (tree: SectionTree)
        ensures
            tree@ == filtered_tree(self@, keep@),
    {
        let tree = self.tree();
        let (root, _) = prune(&tree.root, keep);
        SectionTree { front_matter: tree.front_matter, root }
    }

    /// Tells of each block whether it is a heading that `filter` accepts.
    pub fn matching_headings<F: Fn(&Block) -> bool>(&self, filter: &F) -> (keep: Vec<bool>)
        requires
            forall|i: int|
                0 <= i < self.blocks@.len() ==> #[trigger] call_requires(*filter, (&self.blocks@[i],)),
        ensures
            keep@.len() == self@.len(),
            forall|i: int|
                0 <= i < self@.len() ==> if self@[i].is_heading() {
                    call_ensures(*filter, (&self.blocks@[i],), #[trigger] keep@[i])
                } else {
                    !keep@[i]
                },
    {
        let mut keep: Vec<bool> = Vec::new();
        let mut i: usize = 0;
        while i < self.blocks.len()
            invariant
                i <= self.blocks@.len(),
                keep@.len() == i,
                forall|j: int|
                    0 <= j < self.blocks@.len() ==> #[trigger] call_requires(
                        *filter,
                        (&self.blocks@[j],),
                    ),
                forall|j: int|
                    0 <= j < i ==> if self@[j].is_heading() {
                        call_ensures(*filter, (&self.blocks@[j],), #[trigger] keep@[j])
                    } else {
                        !keep@[j]
                    },
            decreases self.blocks@.len() - i,
        {
            assert(call_requires(*filter, (&self.blocks@[i as int],)));
            let hit = self.blocks[i].is_heading() && filter(&self.blocks[i]);
            keep.push(hit);
            i += 1;
        }
        keep
    }

    /// The directory tree without the sections that neither `filter` accepts nor have a subsection
    /// that it accepts. The ancestors of an accepted section stay, and so does the root.
    pub fn tree_filtered<F: Fn(&Block) -> bool>(&self, filter: &F) -> (tree: SectionTree)
        requires
            forall|i: int|
                0 <= i < self.blocks@.len() ==> #[trigger] call_requires(*filter, (&self.blocks@[i],)),
        ensures
            exists|keep: Seq<bool>|
                {
                    &&& keep.len() == self@.len()
                    &&& forall|i: int|
                        0 <= i < self@.len() ==> if self@[i].is_heading() {
                            call_ensures(*filter, (&self.blocks@[i],), #[trigger] keep[i])
                        } else {
                            !keep[i]
                        }
                    &&& tree@ == #[trigger] filtered_tree(self@, keep)
                },
    {
        let keep = self.matching_headings(filter);
        self.tree_keeping(&keep)
    }

    /// The whole document as Markdown.
    pub fn render(&self) -> (text: String)
        ensures
            text@ == rendered(self@),
    {
        render_blocks(&self.blocks)
    }

    /// The blocks of `range` as Markdown.
    pub fn render_range(&self, range: Range<usize>) -> (text: String)
        requires
            range.start <= range.end <= self@.len(),
        ensures
            text@ == rendered(self@.subrange(range.start as int, range.end as int)),
    {
        broadcast use group_views;

        render_blocks(&self.blocks[range.start..range.end])
    }

    /// The value of the front matter at `index`; empty if there is none.
    pub fn frontmatter_value(&self, index: usize) -> (value: &str)
        requires
            index < self@.len(),
        ensures
            value@ == front_matter_text(self@[index as int]),
    {
        match &self.blocks[index].content {
            Content::Yaml(value) => value.as_str(),
            Content::Toml(value) => value.as_str(),
            _ => {
                let none = "";
                proof {
                    reveal_strlit("");
                    assert(none@ =~= Seq::empty());
                }
                none
            },
        }
    }

    /// Sets the value of the front matter at `index`; does nothing if there is none.
    pub fn set_frontmatter(&mut self, index: usize, value: String)
        requires
            index < old(self)@.len(),
        ensures
            final(self)@ == old(self)@.update(
                index as int,
                with_front_matter(old(self)@[index as int], value@),
            ),
    {
        let ghost before = self.blocks@;
        let content = match &self.blocks[index].content {
            Content::Yaml(_) => Some(Content::Yaml(value)),
            Content::Toml(_) => Some(Content::Toml(value)),
            _ => None,
        };
        if let Some(content) = content {
            self.blocks[index].content = content;
        }
        assert(forall|j: int| 0 <= j < before.len() && j != index ==> self.blocks@[j] == before[j]);
        assert(self@ =~= views(before).update(
            index as int,
            with_front_matter(views(before)[index as int], value@),
        ));
    }

    /// Parses `body` and puts its blocks in place of `range`. Headings in `body` become new
    /// directories of the next tree.
    pub fn replace_section_content(&mut self, range: Range<usize>, body: &str) -> (r: Result<
        (),
        MutationError,
    >)
        requires
            range.start <= range.end <= old(self)@.len(),
        ensures
            edited(
                old(self)@,
                final(self)@,
                r,
                replaced(old(self)@, range.start as int, range.end as int, body@),
            ),
    {
        match parse_blocks(body) {
            Ok(new_blocks) => {
                let _taken = splice_with_reflow(
                    &mut self.blocks,
                    range.start,
                    range.end,
                    new_blocks,
                );
                Ok(())
            },
            Err(message) => Err(MutationError::Parse(message)),
        }
    }

    /// Adds an empty heading `name` below `parent`, unless it would be deeper than Markdown can
    /// express.
    pub fn insert_heading(&mut self, parent: &Section, name: &str) -> (r: Result<(), MutationError>)
        requires
            child_index(parent@.children, name@) is None ==> parent@.end <= old(self)@.len(),
        ensures
            edited(old(self)@, final(self)@, r, inserted(old(self)@, parent@, name@)),
    {
        broadcast use group_views;

        if parent.child(name).is_some() {
            return Err(MutationError::AlreadyExists(name.to_string()));
        }
        let depth = parent.depth.saturating_add(1);
        if depth > MAX_DEPTH {
            return Err(MutationError::TooDeep);
        }
        let heading = Block { content: plain_heading(depth, name), span: None };
        let ghost h = heading@;
        let at = find_closing_heading(
            &self.blocks,
            parent.own_content_range.end,
            self.blocks.len(),
            depth,
        );
        let mut new_blocks: Vec<Block> = Vec::new();
        new_blocks.push(heading);
        assert(views(new_blocks@) =~= seq![h]);
        let _taken = splice_with_reflow(&mut self.blocks, at, at, new_blocks);
        Ok(())
    }

    /// Gives `section` the title `new_name`.
    pub fn rename_heading(&mut self, section: &Section, new_name: &str) -> (r: Result<
        (),
        MutationError,
    >)
        requires
            section@.heading is Some ==> section@.heading->0 < old(self)@.len(),
        ensures
            edited(old(self)@, final(self)@, r, renamed(old(self)@, section@, new_name@)),
    {
        match section.heading_index {
            Some(index) => {
                let ghost before = self.blocks@;
                let depth = match &self.blocks[index].content {
                    Content::Heading { depth, .. } => Some(*depth),
                    _ => None,
                };
                if let Some(depth) = depth {
                    self.blocks[index].content = plain_heading(depth, new_name);
                }
                assert(forall|j: int|
                    0 <= j < before.len() && j != index ==> self.blocks@[j] == before[j]);
                assert(self@ =~= views(before).update(
                    index as int,
                    retitled(views(before)[index as int], new_name@),
                ));
                Ok(())
            },
            None => Err(MutationError::NotADirectory),
        }
    }

    /// Removes the empty `section`.
    pub fn remove_heading(&mut self, section: &Section) -> (r: Result<(), MutationError>)
        requires
            section@.removable() && section@.heading is Some ==> section@.heading->0
                < old(self)@.len(),
        ensures
            edited(old(self)@, final(self)@, r, removed(old(self)@, section@)),
    {
        if !section.is_removable() {
            return Err(MutationError::NotEmpty);
        }
        match section.heading_index {
            Some(index) => {
                let none: Vec<Block> = Vec::new();
                assert(views(none@) =~= Seq::empty());
                assert(index < self.blocks.len());
                let _taken = splice_with_reflow(&mut self.blocks, index, index + 1, none);
                Ok(())
            },
            None => Err(MutationError::NotADirectory),
        }
    }

    /// Moves `section` with its subtree below `new_parent`, under the title `new_name`. Both come
    /// from the tree of the document as it is.
    pub fn move_heading(
        &mut self,
        section: &Section,
        new_parent: &Section,
        new_name: &str,
    ) -> (r: Result<(), MutationError>)
        requires
            occurs(tree_of(old(self)@).root, section@),
            occurs(tree_of(old(self)@).root, new_parent@),
        ensures
            edited(
                old(self)@,
                final(self)@,
                r,
                reparented(old(self)@, section@, new_parent@, new_name@),
            ),
    {
        broadcast use group_views;

        if new_parent.child(new_name).is_some() {
            return Err(MutationError::AlreadyExists(new_name.to_string()));
        }
        let start = match section.heading_index {
            Some(index) => index,
            None => {
                return Err(MutationError::NotADirectory);
            },
        };
        let end = section.subtree_end();
        if let Some(index) = new_parent.heading_index {
            if start <= index && index < end {
                return Err(MutationError::WouldCreateCycle);
            }
        }
        let ghost bs = self@;
        proof {
            lemma_placed(bs, section@);
            lemma_outside(bs, section@, new_parent@);
        }
        let deepest = section.max_depth() as u16 + new_parent.depth as u16 + 1;
        if deepest > MAX_DEPTH as u16 + section.depth as u16 {
            return Err(MutationError::TooDeep);
        }
        let none: Vec<Block> = Vec::new();
        assert(views(none@) =~= Seq::empty());
        let ghost shift = depth_shift(section@, new_parent@);
        let mut moved = splice_with_reflow(&mut self.blocks, start, end, none);
        let ghost taken = views(moved@);
        assert(taken =~= bs.subrange(start as int, end as int));
        let n = moved.len();
        let mut i: usize = 0;
        while i < n
            invariant
                n == moved@.len() == taken.len(),
                i <= n,
                taken == bs.subrange(start as int, end as int),
                well_placed(bs, section@),
                section@.heading == Some(start as int),
                end == section@.subtree_end(),
                shift == depth_shift(section@, new_parent@),
                section@.max_depth() + shift <= MAX_DEPTH,
                forall|j: int|
                    0 <= j < i ==> #[trigger] moved@[j]@ == relocated(taken, shift, new_name@)[j],
                forall|j: int| i <= j < n ==> #[trigger] moved@[j]@ == taken[j],
            decreases n - i,
        {
            let ghost before = moved@;
            assert(moved@[i as int]@ == taken[i as int]);
            assert(taken[i as int] == bs[start + i]);
            let depth = match &moved[i].content {
                Content::Heading { depth, .. } => Some(*depth),
                _ => None,
            };
            if let Some(depth) = depth {
                let deeper = shift_depth(depth, section.depth, new_parent.depth);
                if i == 0 {
                    moved[i].content = plain_heading(deeper, new_name);
                } else {
                    set_depth(&mut moved[i], deeper);
                }
            }
            assert(forall|j: int| 0 <= j < n && j != i ==> moved@[j] == before[j]);
            assert(moved@[i as int]@ == relocated(taken, shift, new_name@)[i as int]);
            i += 1;
        }
        assert(views(moved@) =~= relocated(taken, shift, new_name@));
        let from = if new_parent.own_content_range.end <= start {
            new_parent.own_content_range.end
        } else {
            new_parent.own_content_range.end - (end - start)
        };
        let at = find_closing_heading(
            &self.blocks,
            from,
            self.blocks.len(),
            new_parent.depth.saturating_add(1),
        );
        let _taken = splice_with_reflow(&mut self.blocks, at, at, moved);
        Ok(())
    }
}

/// Sets the depth of a heading.
fn set_depth(block: &mut Block, depth: u8)
    ensures
        final(block)@ == (match old(block)@.content {
            ContentView::Heading { title, markup, .. } => BlockView {
                content: ContentView::Heading { depth, title, markup },
                ..old(block)@
            },
            _ => old(block)@,
        }),
{
    if let Content::Heading { depth: d, .. } = &mut block.content {
        *d = depth;
    }
}

} // verus!
