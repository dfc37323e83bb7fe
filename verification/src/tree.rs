//! The parse tree that the grammar matcher hands to the builder: a node
//! carries the grammar rule it matched, the matched source text, and its
//! child nodes in source order.

use vstd::prelude::*;

verus! {

/// The rules of the JSON grammar. A parse-tree node is labeled with the
/// rule it matched; the builder dispatches on this label.
#[derive(Clone, Copy, Debug, PartialEq, Eq, Structural)]
pub enum Rule {
    /// The whole document.
    Json,
    /// A generic value: wraps exactly one of the concrete rules below.
    Value,
    /// An object `{ ... }`; its children are `Pair` nodes.
    Object,
    /// One `key: value` entry of an object; its children are the key node
    /// and the value node.
    Pair,
    /// An array `[ ... ]`; its children are its element nodes.
    Array,
    /// A quoted string literal; its inner content is a `Chars` node.
    Str,
    /// The content of a string literal, escape sequences left verbatim.
    Chars,
    /// A numeric literal.
    Number,
    /// `true` or `false`.
    Bool,
    /// `null`.
    Null,
    /// The end-of-input marker.
    Eoi,
}

/// A node of the parse tree: the rule it matched, the matched substring
/// of the source text, and its children in source order.
#[derive(Debug, PartialEq)]
pub struct Node {
    pub rule: Rule,
    pub text: String,
    pub children: Vec<Node>,
}

/// The mathematical shape of a parse-tree node.
pub struct NodeModel {
    pub rule: Rule,
    pub text: Seq<char>,
    pub children: Seq<NodeModel>,
}

/// The views of a sequence of nodes, node by node.
pub open spec fn nodes_view(s: Seq<Node>) -> Seq<NodeModel>
    decreases s,
{
    Seq::new(
        s.len(),
        |i: int|
            if 0 <= i < s.len() {
                s[i].view()
            } else {
                NodeModel { rule: Rule::Eoi, text: Seq::empty(), children: Seq::empty() }
            },
    )
}

impl View for Node {
    type V = NodeModel;

    open spec fn view(&self) -> NodeModel
        decreases self,
    {
        NodeModel { rule: self.rule, text: self.text@, children: nodes_view(self.children@) }
    }
}

} // verus!
