//! The incremental parser of the `tree-sitter` crate and the trees it makes,
//! both opaque to the verifier. The library reads a tree only after it has
//! turned it into plain nodes, and speaks of a tree by the plain nodes that
//! it holds.

use crate::buffer::TextBuffer;
use crate::node_util::SyntaxNode;
use vstd::prelude::*;

verus! {

#[verifier::external_type_specification]
#[verifier::external_body]
pub struct ExTree(tree_sitter::Tree);

#[verifier::external_type_specification]
#[verifier::external_body]
pub struct ExParser(tree_sitter::Parser);

#[verifier::external_type_specification]
#[verifier::external_body]
pub struct ExNode<'a>(tree_sitter::Node<'a>);

/// A place in a text by row and column, the column counted in bytes.
#[derive(Clone, Copy, Debug)]
pub struct Point {
    pub row: usize,
    pub column: usize,
}

/// A change of a text, as a tree has to be told of it: the bytes from
/// `start_byte` to `old_end_byte` gave way to text that now ends at
/// `new_end_byte`, with the three places also by row and column.
#[derive(Clone, Copy, Debug)]
pub struct TreeEdit {
    pub start_byte: usize,
    pub old_end_byte: usize,
    pub new_end_byte: usize,
    pub start_position: Point,
    pub old_end_position: Point,
    pub new_end_position: Point,
}

/// What the grammar of Markdown makes of a text: the nodes of the tree that a
/// parser new to the text gives for it.
pub uninterp spec fn markdown_nodes(text: Seq<u8>) -> SyntaxNode;

/// `Parser::new`, `Parser::set_language` with the grammar of
/// `tree_sitter_markdown::language`, and `Parser::parse_with`, reading the
/// text piece by piece from `buffer`: the tree of the text. With an earlier
/// tree, which has been told of the edits since, the parser may reuse parts
/// of it. There always is a tree: the parser accepts the grammar, whose
/// version is the one it asks for, and a parser made for the occasion has
/// neither a time limit nor a flag to call it off. Without an earlier tree
/// the tree depends on the text alone.
#[verifier::external_body]
pub(crate) fn parse_buffer(buffer: &TextBuffer, earlier: Option<&tree_sitter::Tree>) -> (tree:
    Option<tree_sitter::Tree>)
    ensures
        tree is Some,
        earlier is None ==> tree_nodes(tree.unwrap()) == markdown_nodes(buffer@),
{
    let mut parser = tree_sitter::Parser::new();
    let _ = parser.set_language(tree_sitter_markdown::language());
    parser.parse_with(&mut |offset, _| crate::document::get_chunk(buffer, offset), earlier)
}

/// `Clone::clone` of a tree: the copy holds what the tree holds.
#[verifier::external_body]
pub(crate) fn tree_clone(tree: &tree_sitter::Tree) -> (copy: tree_sitter::Tree)
    ensures
        tree_nodes(copy) == tree_nodes(*tree),
{
    tree.clone()
}

/// `Tree::edit`: tells the tree of a change of its text.
#[verifier::external_body]
pub(crate) fn tree_edit(tree: &mut tree_sitter::Tree, edit: &TreeEdit) {
    let start = tree_sitter::Point::new(edit.start_position.row, edit.start_position.column);
    let old_end = tree_sitter::Point::new(edit.old_end_position.row, edit.old_end_position.column);
    let new_end = tree_sitter::Point::new(edit.new_end_position.row, edit.new_end_position.column);
    tree.edit(
        &tree_sitter::InputEdit {
            start_byte: edit.start_byte,
            old_end_byte: edit.old_end_byte,
            new_end_byte: edit.new_end_byte,
            start_position: start,
            old_end_position: old_end,
            new_end_position: new_end,
        },
    )
}

/// What a tree holds: its root with all the nodes below it, each by its kind,
/// the bytes it covers and its children from left to right.
pub uninterp spec fn tree_nodes(tree: tree_sitter::Tree) -> SyntaxNode;

/// What a node of a tree holds: the node with all the nodes below it, each by
/// its kind, the bytes it covers and its children from left to right.
pub uninterp spec fn node_nodes(node: tree_sitter::Node) -> SyntaxNode;

/// `Node::kind_id`, `Node::start_byte`, `Node::end_byte` and
/// `Node::children`: the node and all below it as plain nodes.
#[verifier::external_body]
pub(crate) fn node_syntax(node: tree_sitter::Node) -> (plain: SyntaxNode)
    ensures
        plain == node_nodes(node),
{
    let mut cursor = node.walk();
    let children = node.children(&mut cursor).map(node_syntax).collect();
    SyntaxNode { kind: node.kind_id(), start: node.start_byte(), end: node.end_byte(), children }
}

/// `Tree::root_node`: the root, which holds what the tree holds.
#[verifier::external_body]
pub(crate) fn tree_root<'a>(tree: &'a tree_sitter::Tree) -> (root: tree_sitter::Node<'a>)
    ensures
        node_nodes(root) == tree_nodes(*tree),
{
    tree.root_node()
}

/// The tree as plain nodes.
pub(crate) fn tree_syntax(tree: &tree_sitter::Tree) -> (plain: SyntaxNode)
    ensures
        plain == tree_nodes(*tree),
{
    node_syntax(tree_root(tree))
}

} // verus!
