use vstd::prelude::*;

verus! {

/// Handle naming one boolean signal (a wire) of a circuit under
/// construction.
///
/// The circuit builder that allocates these handles lives outside this
/// crate; here a node is an opaque, copyable identity. The only operation
/// that changes a node is an explicit renumbering towards lower indices,
/// used when a previously built sub-circuit is relocated inside a larger
/// composed circuit.
#[derive(Debug, Clone, Copy, PartialEq, Eq, Hash, Structural)]
pub struct Node {
    /// Index of the signal inside the circuit.
    pub id: usize,
}

impl Node {
    /// Creates a handle with the given signal index.
    pub fn new(id: usize) -> (r: Node)
        ensures
            r.id == id,
    {
        Node { id }
    }

    /// Renumbers the node `offset` places towards lower indices.
    pub fn shift_left(&mut self, offset: usize)
        requires
            offset <= old(self).id,
        ensures
            final(self).id == old(self).id - offset,
    {
        self.id = self.id - offset;
    }
}

} // verus!
