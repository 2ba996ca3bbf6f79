use vstd::prelude::*;
use crate::text::{append_decimal, decimal, owned, push_char};

verus! {

/// Generational node identity: a slot index and the generation of that slot.
///
/// Stale ids (wrong generation) are errors, not silent reuse.
#[derive(Clone, Copy, PartialEq, Eq, Hash, PartialOrd, Ord, Debug, Structural)]
pub struct NodeId {
    pub index: u32,
    pub generation: u32,
}

/// How a node id is written in messages: `n<index>.<generation>`.
pub open spec fn node_label(id: NodeId) -> Seq<char> {
    seq!['n'] + decimal(id.index as nat) + seq!['.'] + decimal(id.generation as nat)
}

impl NodeId {
    pub fn new(index: u32, generation: u32) -> (id: NodeId)
        ensures
            id.index == index,
            id.generation == generation,
    {
        NodeId { index, generation }
    }

    pub fn index(self) -> (r: u32)
        ensures
            r == self.index,
    {
        self.index
    }

    pub fn generation(self) -> (r: u32)
        ensures
            r == self.generation,
    {
        self.generation
    }

    /// The label of this id, `n<index>.<generation>`.
    pub fn label(&self) -> (s: String)
        ensures
            s@ == node_label(*self),
    {
        let mut s = owned("n");
        proof {
            reveal_strlit("n");
        }
        append_decimal(&mut s, self.index as u128);
        push_char(&mut s, '.');
        append_decimal(&mut s, self.generation as u128);
        assert(s@ =~= node_label(*self));
        s
    }
}

/// Allocates unique [`NodeId`]s, in increasing index order. Not itself a graph.
#[derive(Debug, Default)]
pub struct NodeIdAllocator {
    next_index: u32,
}

impl NodeIdAllocator {
    /// The index that the next call of `allocate` hands out.
    pub closed spec fn next(&self) -> nat {
        self.next_index as nat
    }

    pub fn new() -> (a: NodeIdAllocator)
        ensures
            a.next() == 0,
    {
        NodeIdAllocator { next_index: 0 }
    }

    /// Hands out the next index with generation 1. The id space is exhausted
    /// once the next index is `u32::MAX`.
    pub fn allocate(&mut self) -> (id: NodeId)
        requires
            old(self).next() < u32::MAX,
        ensures
            id.index == old(self).next(),
            id.generation == 1,
            final(self).next() == old(self).next() + 1,
    {
        let index = self.next_index;
        self.next_index = self.next_index + 1;
        NodeId::new(index, 1)
    }

    /// The same slot one generation later.
    pub fn next_generation(id: NodeId) -> (r: NodeId)
        requires
            id.generation < u32::MAX,
        ensures
            r.index == id.index,
            r.generation == id.generation + 1,
    {
        NodeId::new(id.index, id.generation + 1)
    }
}

} // verus!
