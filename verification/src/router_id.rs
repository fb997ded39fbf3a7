//! Identity of the router that originated a route.

use vstd::prelude::*;

verus! {

/// Identity of the origin router that first announced a route, independent
/// of which neighbour re-advertised it.
#[derive(Clone, Copy, Debug, PartialEq, Eq, Structural)]
pub struct RouterId {
    pub value: u64,
}

impl RouterId {
    pub fn new(value: u64) -> (r: RouterId)
        ensures
            r.value == value,
    {
        RouterId { value }
    }
}

} // verus!
