//! Parsing Python sources into syntax trees, with tree-sitter and its
//! Python grammar.

use vstd::prelude::*;
use crate::syntax::SyntaxNode;

verus! {

/// A node of a tree that tree-sitter built. Verus sees nothing inside it.
#[verifier::external_type_specification]
#[verifier::external_body]
pub struct ExTreeSitterNode<'tree>(tree_sitter::Node<'tree>);

/// The syntax tree that tree-sitter, with the grammar of
/// `tree-sitter-python`, gives for the source `source`; `None` where it
/// gives none. It depends on the source alone.
pub uninterp spec fn python_tree(source: Seq<char>) -> Option<SyntaxNode>;

/// Parses `source` as Python: tree-sitter's `Parser::parse` with the
/// language of `tree-sitter-python`, the tree copied node for node into a
/// `SyntaxNode` tree (kind, field name, text, start position, children).
/// Trusted: the contract claims only that the result is `python_tree` of
/// the source, a function of the source alone (tree-sitter's parse is
/// deterministic and gives `None` only where no language could be set).
/// What the tree holds is not stated.
#[verifier::external_body]
pub fn parse_python(source: &str) -> (r: Option<SyntaxNode>)
    ensures
        r == python_tree(source@),
{
    let mut parser = tree_sitter::Parser::new();
    parser.set_language(&tree_sitter_python::LANGUAGE.into()).ok()?;
    let tree = parser.parse(source, None)?;
    Some(copy_tree(tree.root_node(), None, source.as_bytes()))
}

/// The copy of the tree-sitter node `node` (standing under the field
/// `field` in its parent) and everything below it, its texts read from
/// `source`: `Node::kind`, `Node::utf8_text`, `Node::start_position`,
/// `Node::child` and `Node::field_name_for_child`, value for value. Trusted,
/// with no contract: nothing is stated of the copy.
#[verifier::external_body]
fn copy_tree(node: tree_sitter::Node, field: Option<&str>, source: &[u8]) -> SyntaxNode {
    let mut children = Vec::new();
    for i in 0..node.child_count() {
        if let Some(child) = node.child(i) {
            children.push(copy_tree(child, node.field_name_for_child(i), source));
        }
    }
    SyntaxNode {
        kind: node.kind().to_string(),
        field: field.map(str::to_string),
        text: node.utf8_text(source).unwrap_or("").to_string(),
        start_row: node.start_position().row,
        start_column: node.start_position().column,
        children,
    }
}

} // verus!
