//! What can go wrong in a pipeline.

use vstd::prelude::*;

use crate::caps::CapsSet;
use crate::graph::NodeId;

verus! {

/// Why nothing is left on a link.
#[derive(Clone, Copy, Debug, PartialEq, Eq, Structural)]
pub enum LinkFault {
    /// The producers offer nothing that the consumer accepts.
    NothingAccepted,
    /// The constraint derives no output that can be produced.
    NoOutput,
    /// Backward narrowing left no common caps.
    NoCommonCaps,
}

/// The error of every pipeline operation.
#[derive(Debug)]
pub enum Error {
    /// Negotiation left nothing on a link; `accepts` is what the consumer
    /// takes.
    EmptyLink { upstream: NodeId, downstream: NodeId, fault: LinkFault, accepts: CapsSet },
    /// No consistent choice of concrete caps is left.
    Unfixable { upstream: NodeId, downstream: NodeId, remaining: CapsSet },
    /// The graph is no valid pull graph.
    InvalidGraph(String),
    /// A source could not be read.
    Source(String),
    /// A node's computation failed.
    Compute { node: NodeId, detail: String },
    /// A reprojection failed.
    Projection(String),
    /// A chunk is not of the kind asked for.
    Kind(ChunkKind),
}

/// The kinds of data a link can carry.
#[derive(Clone, Copy, Debug, PartialEq, Eq, Structural)]
pub enum ChunkKind {
    Raster,
    PointCloud,
    Vector,
    Tensor,
}

} // verus!
