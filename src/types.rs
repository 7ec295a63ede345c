//! Vertex ids, delta operations and packed edge handles.
use vstd::prelude::*;

verus! {

/// A dense vertex id in `[0, vertex_count)`.
pub type VId = u32;

/// One pending change to a vertex's neighbor set.
#[derive(Clone, Copy, Debug, PartialEq, Eq, Structural)]
pub enum DeltaOp {
    AddNeighbor(VId),
    RemoveNeighbor(VId),
}

impl DeltaOp {
    /// The neighbor that the operation names.
    pub open spec fn target(self) -> VId {
        match self {
            DeltaOp::AddNeighbor(n) => n,
            DeltaOp::RemoveNeighbor(n) => n,
        }
    }
}

/// Why an analytic call was rejected before it started.
#[derive(Clone, Copy, Debug, PartialEq, Eq, Structural)]
pub enum GraphError {
    /// The start vertex lies outside `[0, vertex_count)`.
    InvalidVertex(VId),
}

/// The set that results from applying one operation to `s`.
pub open spec fn apply_op(s: Set<VId>, op: DeltaOp) -> Set<VId> {
    match op {
        DeltaOp::AddNeighbor(n) => s.insert(n),
        DeltaOp::RemoveNeighbor(n) => s.remove(n),
    }
}

/// The set that results from applying `ops` to `s` in log order.
pub open spec fn apply_ops(s: Set<VId>, ops: Seq<DeltaOp>) -> Set<VId>
    decreases ops.len(),
{
    if ops.len() == 0 {
        s
    } else {
        apply_op(apply_ops(s, ops.drop_last()), ops.last())
    }
}

/// The resolved neighbor set of a vertex: its base neighbors, if any, with its
/// delta log, if any, applied in order.
pub open spec fn resolved_set(base: Option<Seq<VId>>, delta: Option<Seq<DeltaOp>>) -> Set<VId> {
    let start = match base {
        Some(b) => b.to_set(),
        None => Set::empty(),
    };
    match delta {
        Some(d) => apply_ops(start, d),
        None => start,
    }
}

} // verus!
