use vstd::prelude::*;
use crate::error::Error;
use crate::graph::{Graph, invalidation_outcome};
use crate::id::NodeId;
use crate::status::InvalidationReason;

verus! {

/// How far an invalidation reaches.
#[derive(Clone, Copy, Debug, PartialEq, Eq, Structural)]
pub enum InvalidationMode {
    /// Walk dependents now.
    Eager,
    /// Mark only the seed. Dependents discover staleness on query.
    Lazy,
}

impl Default for InvalidationMode {
    fn default() -> (m: InvalidationMode)
        ensures
            m == InvalidationMode::Eager,
    {
        InvalidationMode::Eager
    }
}

/// How a mode is named in reports.
pub open spec fn mode_label(mode: InvalidationMode) -> Seq<char> {
    match mode {
        InvalidationMode::Eager => "Eager"@,
        InvalidationMode::Lazy => "Lazy"@,
    }
}

/// What one invalidation did.
#[derive(Debug)]
pub struct InvalidationReport {
    /// Name of the seed, when it is a live node.
    pub seed: Option<String>,
    /// The nodes marked, in the order they were reached.
    pub invalidated: Vec<NodeId>,
    /// How many nodes were marked.
    pub fanout: usize,
    /// `Eager` or `Lazy`.
    pub mode: String,
}

impl Default for InvalidationReport {
    fn default() -> (r: InvalidationReport)
        ensures
            r.seed is None,
            r.invalidated@.len() == 0,
            r.fanout == 0,
            r.mode@.len() == 0,
    {
        InvalidationReport { seed: None, invalidated: Vec::new(), fanout: 0, mode: String::new() }
    }
}

/// Invalidate from `seed`. In eager mode every node downstream of the seed
/// (and the seed itself when `include_seed`) becomes dirty, unless it is
/// running; in lazy mode only the seed is marked, and only when included.
pub fn invalidate(
    graph: &mut Graph,
    seed: NodeId,
    include_seed: bool,
    mode: InvalidationMode,
    reason: InvalidationReason,
) -> (r: Result<InvalidationReport, Error>)
    requires
        old(graph).wf(),
    ensures
        invalidation_outcome(*old(graph), *final(graph), seed, include_seed, mode, reason, r),
{
    graph.invalidate(seed, include_seed, mode, reason)
}

} // verus!
