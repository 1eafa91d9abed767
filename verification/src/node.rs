use vstd::prelude::*;

verus! {

/// Identifier of a node in the genealogy. Dense ids `0..num_nodes` are the
/// expected range, though a `Tree` may be queried with any id: ids beyond the
/// parent array's bounds are treated as roots.
pub type NodeId = usize;

} // verus!
