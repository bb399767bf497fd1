//! Handles on nodes of concrete syntax trees, kept by the tree they belong to.
use vstd::prelude::*;

verus! {

/// Why the concrete parser could not produce a tree.
#[derive(Debug)]
pub struct TreeSitterError(pub String);

/// A node of a concrete tree: its position among the nodes its tree handed
/// out, and the generation of that tree.
#[derive(Clone, Copy, Debug, PartialEq, Eq, Structural)]
pub struct Node(pub usize, pub usize);

} // verus!
