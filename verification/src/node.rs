//! The header at the start of each free block.

use vstd::prelude::*;

verus! {

/// What the header of a free block holds.
#[derive(Debug, Clone, Copy)]
pub struct Node {
    /// The offset of the next free block, in bytes from the arena's start.
    pub next: u32,
    /// The size of this block, in bytes.
    pub size: u32,
}

impl Node {
    /// Two blocks touch where one ends at the offset at which the other
    /// starts.
    pub open spec fn spec_touches(node_at: u32, node: Node, rhs_at: u32, rhs: Node) -> bool {
        node_at + node.size == rhs_at || rhs_at + rhs.size == node_at
    }

    /// Whether the block at `node_at` and the block at `rhs_at` touch.
    pub fn touches(node_at: u32, node: &Node, rhs_at: u32, rhs: &Node) -> (touching: bool)
        ensures
            touching == Self::spec_touches(node_at, *node, rhs_at, *rhs),
    {
        let node_end: u64 = node_at as u64 + node.size as u64;
        let rhs_end: u64 = rhs_at as u64 + rhs.size as u64;
        node_end == rhs_at as u64 || rhs_end == node_at as u64
    }
}

} // verus!
