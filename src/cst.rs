//! The parsed tree, as plain data.
//!
//! The parser itself stands outside the library: a caller parses the template and hands over
//! the nodes, each with its kind, its byte span and its named children. Node `0` is the root.
use vstd::prelude::*;

verus! {

/// The node kinds that the rewriter reads; every other kind is `Other`.
#[derive(Debug, Clone, Copy, PartialEq, Eq, Structural)]
pub enum NodeKind {
    Document,
    Element,
    StartTag,
    EndTag,
    SelfClosingTag,
    TagName,
    Text,
    Comment,
    HtmlInterpolation,
    Other,
}

/// One node: its kind, its byte span `[start_byte, end_byte)`, and the indices of its named
/// children in order.
#[derive(Debug, Clone)]
pub struct CstNode {
    pub kind: NodeKind,
    pub start_byte: usize,
    pub end_byte: usize,
    pub named_children: Vec<usize>,
}

/// A parsed tree: its nodes, the root first.
#[derive(Debug, Clone)]
pub struct Cst {
    pub nodes: Vec<CstNode>,
}

} // verus!
