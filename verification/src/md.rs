//! The Markdown syntax tree the renderer and title extraction work on: the
//! parts of a markdown-rs (`mdast`) tree they read, as plain values.
use vstd::prelude::*;
use markdown::mdast::Node;

verus! {

/// The markdown-rs syntax tree node, carried opaquely through the conversion.
#[verifier::external_type_specification]
#[verifier::external_body]
pub struct ExMdastNode(markdown::mdast::Node);

/// The markdown-rs table column alignment.
#[verifier::external_type_specification]
#[verifier::external_body]
pub struct ExMdastAlignKind(markdown::mdast::AlignKind);

/// A column alignment of a GFM table.
#[derive(Clone, Copy, PartialEq, Eq, Structural, Debug)]
pub enum MdAlign {
    Left,
    Center,
    Right,
    Unaligned,
}

/// What kind of node a [`MdNode`] is, with the node's own values.
#[derive(Debug)]
pub enum MdKind {
    Root,
    Paragraph,
    Heading { depth: u8 },
    List { ordered: bool, start: Option<u32> },
    ListItem { checked: Option<bool> },
    Code { value: String },
    Blockquote,
    ThematicBreak,
    Html { value: String },
    Table { align: Vec<MdAlign> },
    TableRow,
    TableCell,
    Text { value: String },
    InlineCode { value: String },
    Emphasis,
    Strong,
    Delete,
    Link { url: String },
    Image { alt: String },
    Break,
    LinkReference,
    ImageReference { alt: String },
    FootnoteReference { label: Option<String>, identifier: String },
    /// Any node the renderer has no special case for.
    Other,
}

/// A node of the Markdown tree: its kind and its children (empty for nodes
/// that cannot have any).
#[derive(Debug)]
pub struct MdNode {
    pub kind: MdKind,
    pub children: Vec<MdNode>,
}

/// What markdown-rs (`markdown::to_mdast` with GFM options) parses `text`
/// into, or `None` when it reports an error.
pub uninterp spec fn spec_parse_markdown(text: Seq<char>) -> Option<MdNode>;

/// `markdown::to_mdast(text, &ParseOptions::gfm())`, its tree converted node
/// for node into [`MdNode`]. The contract claims only that the result is a
/// fixed function of `text`.
#[verifier::external_body]
pub fn parse_markdown(text: &str) -> (r: Option<MdNode>)
    ensures
        r == spec_parse_markdown(text@),
{
    markdown::to_mdast(text, &markdown::ParseOptions::gfm()).ok().map(|node| md_node(&node))
}

/// One mdast node and its subtree, moved field for field into [`MdNode`].
#[verifier::external_body]
fn md_node(node: &Node) -> MdNode {
    MdNode {
        kind: md_block_kind(node),
        children: node.children().map(|c| c.iter().map(md_node).collect()).unwrap_or_default(),
    }
}

/// The [`MdKind`] of a container block, one arm per variant; other nodes
/// go on to [`md_leaf_kind`].
#[verifier::external_body]
fn md_block_kind(node: &Node) -> MdKind {
    match node {
        Node::Root(_) => MdKind::Root,
        Node::Paragraph(_) => MdKind::Paragraph,
        Node::Heading(h) => MdKind::Heading { depth: h.depth },
        Node::List(l) => MdKind::List { ordered: l.ordered, start: l.start },
        Node::ListItem(i) => MdKind::ListItem { checked: i.checked },
        Node::Blockquote(_) => MdKind::Blockquote,
        other => md_leaf_kind(other),
    }
}

/// The [`MdKind`] of a leaf block or table node, one arm per variant; other
/// nodes go on to [`md_inline_kind`].
#[verifier::external_body]
fn md_leaf_kind(node: &Node) -> MdKind {
    match node {
        Node::Code(c) => MdKind::Code { value: c.value.clone() },
        Node::ThematicBreak(_) => MdKind::ThematicBreak,
        Node::Html(h) => MdKind::Html { value: h.value.clone() },
        Node::Table(t) => MdKind::Table { align: t.align.iter().map(md_align).collect() },
        Node::TableRow(_) => MdKind::TableRow,
        Node::TableCell(_) => MdKind::TableCell,
        other => md_inline_kind(other),
    }
}

/// The [`MdKind`] of a text-carrying inline node, one arm per variant; other
/// nodes go on to [`md_marker_kind`].
#[verifier::external_body]
fn md_inline_kind(node: &Node) -> MdKind {
    match node {
        Node::Text(t) => MdKind::Text { value: t.value.clone() },
        Node::InlineCode(c) => MdKind::InlineCode { value: c.value.clone() },
        Node::Emphasis(_) => MdKind::Emphasis,
        Node::Strong(_) => MdKind::Strong,
        Node::Delete(_) => MdKind::Delete,
        Node::Link(l) => MdKind::Link { url: l.url.clone() },
        other => md_marker_kind(other),
    }
}

/// The [`MdKind`] of an image, break or reference node, one arm per variant;
/// any other node is [`MdKind::Other`].
#[verifier::external_body]
fn md_marker_kind(node: &Node) -> MdKind {
    match node {
        Node::Image(i) => MdKind::Image { alt: i.alt.clone() },
        Node::Break(_) => MdKind::Break,
        Node::LinkReference(_) => MdKind::LinkReference,
        Node::ImageReference(i) => MdKind::ImageReference { alt: i.alt.clone() },
        Node::FootnoteReference(f) => MdKind::FootnoteReference { label: f.label.clone(), identifier: f.identifier.clone() },
        _ => MdKind::Other,
    }
}

/// An mdast column alignment as [`MdAlign`], one arm per variant.
#[verifier::external_body]
fn md_align(align: &markdown::mdast::AlignKind) -> MdAlign {
    match align {
        markdown::mdast::AlignKind::Left => MdAlign::Left,
        markdown::mdast::AlignKind::Center => MdAlign::Center,
        markdown::mdast::AlignKind::Right => MdAlign::Right,
        markdown::mdast::AlignKind::None => MdAlign::Unaligned,
    }
}

} // verus!
