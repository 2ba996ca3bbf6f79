use vstd::prelude::*;
use crate::error::Error;
use crate::graph::{Graph, is_dirty_schedule, msg_schedule_limit};
use crate::id::NodeId;

verus! {

/// Deterministic order in which the dirty nodes are to be recomputed: among
/// the nodes whose dirty dependencies are already placed, the one with the
/// smallest index comes next.
#[derive(Debug)]
pub struct Schedule {
    pub order: Vec<NodeId>,
}

impl Default for Schedule {
    fn default() -> (s: Schedule)
        ensures
            s.order@.len() == 0,
    {
        Schedule { order: Vec::new() }
    }
}

/// The schedule of the dirty nodes of `graph`, or a limit error when there
/// are more of them than the graph allows in one schedule.
pub fn topological_dirty(graph: &Graph) -> (r: Result<Schedule, Error>)
    requires
        graph.wf(),
    ensures
        r is Err <==> graph.dirty_total() > graph.limits_of().max_schedule_nodes,
        r matches Err(e) ==> e.is_limit(msg_schedule_limit(graph.dirty_total(), graph.limits_of().max_schedule_nodes as nat)),
        r matches Ok(s) ==> is_dirty_schedule(*graph, s.order@),
{
    graph.schedule_dirty()
}

} // verus!
