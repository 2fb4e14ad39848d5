//! Opaque identifiers of nodes owned by the foreign graph.

use vstd::prelude::*;

verus! {

/// A foreign-owned node, identified by its address. The address zero is the
/// null handle, which marks the end or the absence of a node.
#[derive(Clone, Copy, Debug, PartialEq, Eq, Hash, Structural)]
pub struct Handle {
    pub addr: usize,
}

impl Handle {
    pub open spec fn spec_is_null(&self) -> bool {
        self.addr == 0
    }

    /// The null handle.
    pub fn null() -> (r: Handle)
        ensures
            r.spec_is_null(),
    {
        Handle { addr: 0 }
    }

    /// The handle of the node at `addr`.
    pub fn from_addr(addr: usize) -> (r: Handle)
        ensures
            r.addr == addr,
    {
        Handle { addr }
    }

    #[verifier::when_used_as_spec(spec_is_null)]
    pub fn is_null(&self) -> (r: bool)
        ensures
            r == self.spec_is_null(),
    {
        self.addr == 0
    }
}

} // verus!
