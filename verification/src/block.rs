//! Top-level blocks of a Markdown document, and the Markdown parser and renderer behind them.
//!
//! The blocks hold as plain values what this crate reads and changes: front matter, heading depths
//! and titles, and line numbers. Everything else about a block stays inside the parser's own node.
use mq_markdown::{Heading, Markdown, Node, Point, Position, Text, Toml, Yaml};
use vstd::prelude::*;

use crate::model::views;

verus! {

/// A node of the Markdown parser. It is carried along and handed back to the renderer.
#[verifier::external_type_specification]
#[verifier::external_body]
pub struct ExNode(mq_markdown::Node);

/// Where a block stands in the source, in lines and columns.
#[derive(Debug, Clone, Copy, PartialEq, Eq, Structural)]
pub struct Span {
    pub start_line: usize,
    pub start_column: usize,
    pub end_line: usize,
    pub end_column: usize,
}

/// What a block is.
#[derive(Debug)]
pub enum Content {
    /// YAML front matter.
    Yaml(String),
    /// TOML front matter.
    Toml(String),
    /// A heading. `title` is the plain text of its inline nodes, `markup`.
    Heading { depth: u8, title: String, markup: Vec<Node> },
    /// Any other block.
    Other(Node),
}

/// A top-level block.
#[derive(Debug)]
pub struct Block {
    pub content: Content,
    pub span: Option<Span>,
}

/// The mathematical value of a [`Content`].
pub enum ContentView {
    Yaml(Seq<char>),
    Toml(Seq<char>),
    Heading { depth: u8, title: Seq<char>, markup: Seq<Node> },
    Other(Node),
}

/// The mathematical value of a [`Block`].
pub struct BlockView {
    pub content: ContentView,
    pub span: Option<Span>,
}

impl View for Content {
    type V = ContentView;

    open spec fn view(&self) -> ContentView {
        match *self {
            Content::Yaml(value) => ContentView::Yaml(value@),
            Content::Toml(value) => ContentView::Toml(value@),
            Content::Heading { depth, title, markup } => ContentView::Heading {
                depth,
                title: title@,
                markup: markup@,
            },
            Content::Other(node) => ContentView::Other(node),
        }
    }
}

impl View for Block {
    type V = BlockView;

    open spec fn view(&self) -> BlockView {
        BlockView { content: self.content@, span: self.span }
    }
}

impl BlockView {
    /// Whether this is a heading.
    pub open spec fn is_heading(self) -> bool {
        self.content is Heading
    }

    /// The heading depth.
    pub open spec fn depth(self) -> u8
        recommends
            self.is_heading(),
    {
        self.content->depth
    }

    /// The heading title.
    pub open spec fn title(self) -> Seq<char>
        recommends
            self.is_heading(),
    {
        self.content->title
    }
}

impl Block {
    /// Whether this is a heading.
    pub fn is_heading(&self) -> (r: bool)
        ensures
            r == self@.is_heading(),
    {
        match &self.content {
            Content::Heading { .. } => true,
            _ => false,
        }
    }
}

/// The blocks that the Markdown parser makes of a source text, or its error message.
pub uninterp spec fn parsed(source: Seq<char>) -> Result<Seq<BlockView>, Seq<char>>;

/// The Markdown text that the renderer writes for a list of blocks.
pub uninterp spec fn rendered(blocks: Seq<BlockView>) -> Seq<char>;

/// A parse result as plain values.
pub open spec fn parse_view(result: Result<Vec<Block>, String>) -> Result<
    Seq<BlockView>,
    Seq<char>,
> {
    match result {
        Ok(blocks) => Ok(views(blocks@)),
        Err(message) => Err(message@),
    }
}

/// `Markdown::from_markdown_str`: parses `source` into its top-level nodes. What these are, or the
/// message of the error, depends on `source` alone and is called [`parsed`].
#[verifier::external_body]
pub(crate) fn parse_blocks(source: &str) -> (result: Result<Vec<Block>, String>)
    ensures
        parse_view(result) == parsed(source@),
{
    let markdown = Markdown::from_markdown_str(source).map_err(|e| e.to_string())?;
    let to_block = |node: Node| {
        let span = node.position().map(|p| Span {
            start_line: p.start.line, start_column: p.start.column, end_line: p.end.line, end_column: p.end.column,
        });
        let title = node.value();
        let content = match node {
            Node::Yaml(yaml) => Content::Yaml(yaml.value),
            Node::Toml(toml) => Content::Toml(toml.value),
            Node::Heading(h) => Content::Heading { depth: h.depth, title, markup: h.values },
            other => Content::Other(other),
        };
        Block { content, span }
    };
    Ok(markdown.nodes.into_iter().map(to_block).collect())
}

/// `Markdown::to_string` on `Markdown::new`: the text that the renderer writes for these blocks
/// depends on them alone and is called [`rendered`].
#[verifier::external_body]
pub(crate) fn render_blocks(blocks: &[Block]) -> (text: String)
    ensures
        text@ == rendered(views(blocks@)),
{
    let nodes = blocks.iter().map(|block| {
        let mut node = match &block.content {
            Content::Yaml(value) => Node::Yaml(Yaml { value: value.clone(), position: None }),
            Content::Toml(value) => Node::Toml(Toml { value: value.clone(), position: None }),
            Content::Heading { depth, markup, .. } => Node::Heading(Heading { depth: *depth, values: markup.clone(), position: None }),
            Content::Other(node) => node.clone(),
        };
        node.set_position(block.span.map(|s| Position {
            start: Point { line: s.start_line, column: s.start_column },
            end: Point { line: s.end_line, column: s.end_column }
        }));
        node
    });
    Markdown::new(nodes.collect()).to_string()
}

/// The inline node of a plain text.
pub uninterp spec fn text_node_of(text: Seq<char>) -> Node;

/// `Node::Text`: the inline node that holds `text` and nothing else. It is called [`text_node_of`].
#[verifier::external_body]
pub(crate) fn text_node(text: &str) -> (node: Node)
    ensures
        node == text_node_of(text@),
{
    Node::Text(Text { value: text.to_string(), position: None })
}

} // verus!
