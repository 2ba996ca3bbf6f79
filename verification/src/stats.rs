use vstd::prelude::*;

verus! {

/// Counts that describe a graph at one moment.
#[derive(Clone, Copy, Debug, PartialEq, Eq, Structural)]
pub struct GraphStats {
    pub total_nodes: usize,
    /// Dirty or running nodes.
    pub dirty_nodes: usize,
    pub clean_nodes: usize,
    pub failed_nodes: usize,
    pub pending_nodes: usize,
    pub dependency_edges: usize,
    pub max_dependency_depth: usize,
    /// The most dependents any node has.
    pub max_fanout: usize,
}

impl Default for GraphStats {
    fn default() -> (s: GraphStats)
        ensures
            s.total_nodes == 0,
            s.dirty_nodes == 0,
            s.clean_nodes == 0,
            s.failed_nodes == 0,
            s.pending_nodes == 0,
            s.dependency_edges == 0,
            s.max_dependency_depth == 0,
            s.max_fanout == 0,
    {
        GraphStats {
            total_nodes: 0,
            dirty_nodes: 0,
            clean_nodes: 0,
            failed_nodes: 0,
            pending_nodes: 0,
            dependency_edges: 0,
            max_dependency_depth: 0,
            max_fanout: 0,
        }
    }
}

} // verus!
