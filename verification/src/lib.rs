//! A JSON value builder: turns the labeled parse tree that a grammar
//! matcher produces into a tree of semantic JSON values, or reports a
//! structural or conversion error.
//!
//! The grammar matcher itself is an external collaborator: it hands the
//! builder a tree of rule-labeled nodes, each carrying its matched text
//! and its child nodes. The builder walks that tree recursively; its
//! result is pinned, node for node, by the specification function
//! `builder::build_spec`.

pub mod builder;
pub mod number;
pub mod tree;
pub mod value;
