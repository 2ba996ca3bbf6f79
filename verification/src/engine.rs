//! The core of the computation engine: nodes in a dependency graph, their
//! values in a store, a computation per derived node, and the recompute loop
//! that brings every dirty node up to date in dependency order.
//!
//! Full recomputation is the oracle, incremental the experiment: a node
//! computed incrementally falls back to its full computation when the
//! incremental one declines. Which of the two a recompute uses is decided by
//! the caller.

use vstd::prelude::*;
use std::time::Instant;
use crate::delta::{Delta, DeltaModel};
use crate::error::Error;
use crate::fingerprint::{Fingerprint, fnv1a64_spec, law_fnv_detects_one_byte_change, le_bytes};
use crate::graph::{
    Graph, NodeInspect, NodeState, ascending, dirty_node, dirty_or_running, is_dirty_schedule, is_marked, is_max_depth,
    is_ready, lemma_same_edges_same_invalidation_set, lemma_seed_not_marked, lemma_valid_not_next,
    is_fresh_record, lemma_dependencies_valid, lemma_no_dependents_not_downstream, marks_exactly, msg_schedule_limit, lemma_no_dirty_node, msg_invalidation_limit, msg_node_limit, msg_self_cycle, same_identity_edges, stats_of,
};
use crate::id::NodeId;
use crate::invalidate::{InvalidationMode, InvalidationReport};
use crate::metrics::{merge_fits, zero_work, WorkMetrics};
use crate::runtime::{Computation, ComputeCtx, ComputeMode, ComputeOutput, LogLevel, level_rank};
use crate::stats::GraphStats;
use crate::status::{InvalidationReason, NodeStatus};
use crate::store::{slot_key, MemoryStore, Store};
use crate::text::{append_decimal, append_str, decimal, digit_char, owned, push_char};
use crate::timing::{clock_elapsed, clock_now, duration_as_nanos};
use crate::version::{Version, bumped};

verus! {

/// In lazy mode, the input whose last edit has not yet reached its
/// dependents.
pub open spec fn lazy_source(mode: InvalidationMode, source: Option<NodeId>) -> Option<NodeId> {
    if mode == InvalidationMode::Lazy { source } else { None }
}

/// What letting a lazy edit of `src` reach its dependents does: nothing
/// without one; else the nodes downstream of `src` are marked, because
/// `src` changed, as an eager invalidation marks them, refused when they
/// are more than the graph's limit.
pub open spec fn lazy_discovery(before: Graph, after: Graph, src: Option<NodeId>, r: Result<(), Error>) -> bool {
    match src {
        None => r is Ok && after == before,
        Some(s) => {
            let marked = before.invalidation_set(s, false, InvalidationMode::Eager);
            let limit = before.limits_of().max_invalidation_nodes;
            &&& (r is Err <==> marked.len() > limit)
            &&& r matches Err(e) ==> e.is_limit(msg_invalidation_limit(limit as nat))
            &&& r is Ok ==> exists|reason: InvalidationReason| #[trigger] marks_exactly(before, after, marked, reason)
                && (reason matches InvalidationReason::DependencyChanged { dependency } && dependency@ == before.rec(s).name@)
        },
    }
}

/// The seed that input fingerprints start from: the fingerprint of the
/// bytes of "in".
pub open spec fn inputs_seed() -> u64 {
    fnv1a64_spec(seq![105u8, 110u8])
}

/// The fingerprint that the outputs of `deps` combine to, folded in order
/// into `acc`; none when one of them has no output fingerprint.
pub open spec fn combined_inputs(g: Graph, deps: Seq<NodeId>, acc: u64) -> Option<u64>
    decreases deps.len(),
{
    if deps.len() == 0 {
        Some(acc)
    } else {
        match g.rec(deps[0]).output_fingerprint {
            Some(fp) => combined_inputs(g, deps.drop_first(), fnv1a64_spec(le_bytes(acc) + le_bytes(fp.0))),
            None => None,
        }
    }
}

/// With no dependencies the combined fingerprint is the one folded into.
/// One more dependency combines the fingerprint so far with that
/// dependency's output fingerprint: the hash of the little-endian bytes of
/// the two, one after the other (what `Fingerprint::combine` computes). A
/// dependency without an output fingerprint leaves none.
pub proof fn law_combined_inputs_extend(g: Graph, deps: Seq<NodeId>, d: NodeId, seed: u64)
    ensures
        combined_inputs(g, Seq::empty(), seed) == Some(seed),
        combined_inputs(g, deps.push(d), seed) == match combined_inputs(g, deps, seed) {
            Some(a) => match g.rec(d).output_fingerprint {
                Some(f) => Some(fnv1a64_spec(le_bytes(a) + le_bytes(f.0))),
                None => None,
            },
            None => None,
        },
    decreases deps.len(),
{
    let all = deps.push(d);
    if deps.len() == 0 {
        assert(all.drop_first() =~= Seq::<NodeId>::empty());
        assert(all[0] == d);
        assert(combined_inputs(g, deps, seed) == Some(seed));
        match g.rec(d).output_fingerprint {
            Some(f) => {
                let c = fnv1a64_spec(le_bytes(seed) + le_bytes(f.0));
                assert(combined_inputs(g, all.drop_first(), c) == Some(c));
                assert(combined_inputs(g, all, seed) == combined_inputs(g, all.drop_first(), c));
            },
            None => {},
        }
    } else {
        assert(all[0] == deps[0]);
        assert(all.drop_first() =~= deps.drop_first().push(d));
        match g.rec(deps[0]).output_fingerprint {
            Some(fp) => {
                law_combined_inputs_extend(g, deps.drop_first(), d, fnv1a64_spec(le_bytes(seed) + le_bytes(fp.0)));
            },
            None => {},
        }
    }
}

/// The combined fingerprint reads nothing but the dependencies' output
/// fingerprints: graphs that agree on those agree on it.
pub proof fn lemma_combined_inputs_congruent(g1: Graph, g2: Graph, deps: Seq<NodeId>, seed: u64)
    requires
        forall|k: int| 0 <= k < deps.len() ==> g1.rec(#[trigger] deps[k]).output_fingerprint == g2.rec(deps[k]).output_fingerprint,
    ensures
        combined_inputs(g1, deps, seed) == combined_inputs(g2, deps, seed),
    decreases deps.len(),
{
    if deps.len() > 0 {
        let rest = deps.drop_first();
        assert forall|k: int| 0 <= k < rest.len() implies g1.rec(#[trigger] rest[k]).output_fingerprint == g2.rec(rest[k]).output_fingerprint by {
            assert(rest[k] == deps[k + 1]);
        }
        assert(g1.rec(deps[0]).output_fingerprint == g2.rec(deps[0]).output_fingerprint);
        match g1.rec(deps[0]).output_fingerprint {
            Some(fp) => lemma_combined_inputs_congruent(g1, g2, rest, fnv1a64_spec(le_bytes(seed) + le_bytes(fp.0))),
            None => {},
        }
    }
}

/// A changed output of the last dependency changes the combined input
/// fingerprint: when two graphs agree on the other dependencies' output
/// fingerprints and the last one's differ in one byte, the combined
/// fingerprints differ, so a node recorded against one is not reusable in
/// the other.
pub proof fn law_combined_inputs_see_last_output(g1: Graph, g2: Graph, deps: Seq<NodeId>, d: NodeId, seed: u64, j: int)
    requires
        forall|k: int| 0 <= k < deps.len() ==> g1.rec(#[trigger] deps[k]).output_fingerprint == g2.rec(deps[k]).output_fingerprint,
        combined_inputs(g1, deps, seed) is Some,
        g1.rec(d).output_fingerprint is Some,
        g2.rec(d).output_fingerprint is Some,
        0 <= j < 8,
        le_bytes(g1.rec(d).output_fingerprint.unwrap().0)[j] != le_bytes(g2.rec(d).output_fingerprint.unwrap().0)[j],
        forall|i: int| 0 <= i < 8 && i != j ==> le_bytes(g1.rec(d).output_fingerprint.unwrap().0)[i]
            == le_bytes(g2.rec(d).output_fingerprint.unwrap().0)[i],
    ensures
        combined_inputs(g1, deps.push(d), seed) != combined_inputs(g2, deps.push(d), seed),
{
    lemma_combined_inputs_congruent(g1, g2, deps, seed);
    law_combined_inputs_extend(g1, deps, d, seed);
    law_combined_inputs_extend(g2, deps, d, seed);
    let a = combined_inputs(g1, deps, seed).unwrap();
    let f1 = g1.rec(d).output_fingerprint.unwrap().0;
    let f2 = g2.rec(d).output_fingerprint.unwrap().0;
    let s1 = le_bytes(a) + le_bytes(f1);
    let s2 = le_bytes(a) + le_bytes(f2);
    assert forall|i: int| 0 <= i < s1.len() && i != 8 + j implies s1[i] == s2[i] by {
        if i >= 8 {
            assert(s1[i] == le_bytes(f1)[i - 8]);
            assert(s2[i] == le_bytes(f2)[i - 8]);
        }
    }
    assert(s1[8 + j] != s2[8 + j]);
    law_fnv_detects_one_byte_change(s1, s2, 8 + j);
}

/// A node is reused without running when its dependencies' output
/// fingerprints combine to the input fingerprint it recorded, it still has
/// a value, and it has been computed before.
pub open spec fn reusable<V>(g: Graph, values: Map<u64, V>, id: NodeId) -> bool {
    &&& combined_inputs(g, g.rec(id).dependencies@, inputs_seed()) matches Some(v)
    &&& g.rec(id).input_fingerprint == Some(Fingerprint(v))
    &&& values.contains_key(slot_key(id))
    &&& g.rec(id).version.0 > 0
}

/// Whether the graph has room for one more node.
pub open spec fn has_room(g: Graph) -> bool {
    g.slot_count() < 0xffff_ffff && g.live_total() < g.limits_of().max_nodes
}

/// `e` is the error a node is refused with when the graph has no room.
pub open spec fn no_room(g: Graph, e: Error) -> bool {
    if g.slot_count() >= 0xffff_ffff {
        e.is_limit("node slots exhausted"@)
    } else {
        e.is_limit(msg_node_limit(g.live_total(), g.limits_of().max_nodes as nat))
    }
}

/// What one recompute did, in counts.
#[derive(Debug)]
pub struct RecomputeCounts {
    /// Nodes that needed computing when the recompute began.
    pub invalidated_nodes: usize,
    pub recomputed_nodes: usize,
    pub reused_nodes: usize,
    pub dirty_nodes: usize,
    pub total_nodes: usize,
    pub failed_nodes: usize,
    pub dependency_edges: usize,
    pub max_dependency_depth: usize,
    pub execution_nanos: u128,
    pub hashing_nanos: u128,
    pub work: WorkMetrics,
    pub log: Vec<String>,
}

/// The fieldwise sum of two work counters.
pub open spec fn work_added(a: WorkMetrics, b: WorkMetrics) -> WorkMetrics {
    WorkMetrics {
        bytes_processed: (a.bytes_processed + b.bytes_processed) as usize,
        allocations_hint: (a.allocations_hint + b.allocations_hint) as u64,
        items_reused: (a.items_reused + b.items_reused) as usize,
        items_recomputed: (a.items_recomputed + b.items_recomputed) as usize,
        items_invalidated: (a.items_invalidated + b.items_invalidated) as usize,
        items_total: (a.items_total + b.items_total) as usize,
        hashing_nanos: crate::metrics::DurationNanos((a.hashing_nanos.0 + b.hashing_nanos.0) as u128),
    }
}

/// The work reported by the turns that recomputed a value (`Some`), summed.
pub open spec fn work_sum(works: Seq<Option<WorkMetrics>>) -> WorkMetrics
    decreases works.len(),
{
    if works.len() == 0 {
        zero_work()
    } else {
        match works.last() {
            Some(w) => work_added(work_sum(works.drop_last()), w),
            None => work_sum(works.drop_last()),
        }
    }
}

/// How many turns recomputed a value.
pub open spec fn recomputed_count(works: Seq<Option<WorkMetrics>>) -> nat
    decreases works.len(),
{
    if works.len() == 0 {
        0
    } else {
        recomputed_count(works.drop_last()) + if works.last() is Some { 1nat } else { 0nat }
    }
}

/// How many of the nodes of `order` are Failed in `g`.
pub open spec fn failed_count(g: Graph, order: Seq<NodeId>) -> nat
    decreases order.len(),
{
    if order.len() == 0 {
        0
    } else {
        failed_count(g, order.drop_last()) + if g.rec(order.last()).status == NodeStatus::Failed { 1nat } else { 0nat }
    }
}

/// `a + b`, or the counter's maximum when that does not fit.
pub open spec fn sat_sum(a: int, b: int) -> usize {
    if a + b <= usize::MAX { (a + b) as usize } else { usize::MAX }
}

/// What the counters of a recompute say of its turns: `order` is the
/// schedule, `works[k]` the work of the turn of `order[k]` when it recomputed
/// a value. Recomputed nodes end Clean with a bumped version, the others keep
/// theirs; the failed ones are those left Failed; the rest were reused, and
/// the reused count adds the Clean nodes that were not recomputed. The work
/// is the sum of the recomputed turns' work.
pub open spec fn run_record(
    before: Graph,
    after: Graph,
    order: Seq<NodeId>,
    works: Seq<Option<WorkMetrics>>,
    c: RecomputeCounts,
) -> bool {
    let clean = after.status_total(|s: NodeStatus| s is Clean);
    let rec = recomputed_count(works);
    let failed = failed_count(after, order);
    &&& works.len() == order.len()
    &&& c.recomputed_nodes == rec
    &&& c.failed_nodes == failed
    &&& rec + failed <= order.len()
    &&& c.reused_nodes == sat_sum(clean - (if rec < clean { rec } else { clean }), order.len() - rec - failed)
    &&& c.work == work_sum(works)
    &&& forall|k: int| 0 <= k < order.len() && #[trigger] works[k] is Some ==> {
        &&& after.rec(order[k]).status == NodeStatus::Clean
        &&& after.rec(order[k]).version.0 == bumped(before.rec(order[k]).version.0)
    }
    &&& forall|k: int| 0 <= k < order.len() && #[trigger] works[k] is None ==> after.rec(order[k]).version
        == before.rec(order[k]).version
}

/// The hand-overs `new` that a recompute from `before` added: each hands a
/// scheduled node its inputs and edit in the mode `full` asks for, and every
/// turn that recomputed a value has one.
pub open spec fn turns_handed<V>(
    before: EngineCore<V>,
    new: Seq<ComputeCall>,
    full: bool,
    order: Seq<NodeId>,
    works: Seq<Option<WorkMetrics>>,
) -> bool {
    &&& forall|j: int| 0 <= j < new.len() ==> {
        &&& order.contains((#[trigger] new[j]).node)
        &&& new[j] == before.handed(new[j].node, mode_for(full), new[j].fell_back)
        &&& new[j].fell_back ==> !full
    }
    &&& forall|k: int| 0 <= k < works.len() && #[trigger] works[k] is Some ==> exists|j: int| 0 <= j < new.len() && (#[trigger] new[j]).node
        == order[k]
}

/// Some schedule and some turns, each recomputing or not, account for the
/// counters `c` of a recompute from `before` to `after`. When the recompute
/// was not a full one, the schedule is that of the dirty nodes of `before`;
/// a full one schedules every node that is not an input. A turn that neither
/// recomputed nor failed reused its value by input fingerprints, which only
/// happens when those are on. The hand-overs the recompute added to the
/// record are those of its turns.
pub open spec fn run_explained<V>(before: EngineCore<V>, after: EngineCore<V>, full: bool, c: RecomputeCounts) -> bool {
    let new = after.calls().subrange(before.calls().len() as int, after.calls().len() as int);
    exists|order: Seq<NodeId>, works: Seq<Option<WorkMetrics>>|
        #[trigger] run_record(before.graph_view(), after.graph_view(), order, works, c) && {
            &&& !full ==> is_dirty_schedule(before.graph_view(), order)
            &&& full ==> forall|x: NodeId| before.graph_view().valid(x) && !before.input_ids().contains(x) ==> #[trigger] order.contains(x)
            &&& forall|k: int| 0 <= k < order.len() && #[trigger] works[k] is None && after.graph_view().rec(order[k]).status
                != NodeStatus::Failed ==> before.uses_fingerprints()
            &&& turns_handed(before, new, full, order, works)
        }
}

proof fn lemma_handed_same<V>(pre: EngineCore<V>, before: EngineCore<V>, id: NodeId, full: bool)
    requires
        pre.graph.rec(id).dependencies == before.graph.rec(id).dependencies,
        pre.last_delta == before.last_delta,
    ensures
        forall|fb: bool| #[trigger] pre.handed(id, mode_for(full), fb) == before.handed(id, mode_for(full), fb),
{
}

/// One more turn keeps the hand-overs of a recompute accounted for: a turn
/// that handed its node over adds exactly that hand-over, any other adds none.
proof fn lemma_calls_step<V>(
    before: EngineCore<V>,
    c_pre: Seq<ComputeCall>,
    c_post: Seq<ComputeCall>,
    full: bool,
    order: Seq<NodeId>,
    works0: Seq<Option<WorkMetrics>>,
    next: Option<WorkMetrics>,
    i: int,
    handed: bool,
    fb: bool,
)
    requires
        c_pre.len() >= before.calls().len(),
        c_pre.subrange(0, before.calls().len() as int) == before.calls(),
        turns_handed(before, c_pre.subrange(before.calls().len() as int, c_pre.len() as int), full, order, works0),
        0 <= i < order.len(),
        works0.len() == i,
        !handed ==> c_post == c_pre,
        handed ==> c_post == c_pre.push(before.handed(order[i], mode_for(full), fb)) && (fb ==> !full),
        next is Some ==> handed,
    ensures
        c_post.len() >= before.calls().len(),
        c_post.subrange(0, before.calls().len() as int) == before.calls(),
        turns_handed(before, c_post.subrange(before.calls().len() as int, c_post.len() as int), full, order, works0.push(next)),
{
    let b = before.calls().len() as int;
    let n0 = c_pre.subrange(b, c_pre.len() as int);
    let n1 = c_post.subrange(b, c_post.len() as int);
    let w1 = works0.push(next);
    assert(c_post.subrange(0, b) =~= before.calls()) by {
        if handed {
            assert forall|j: int| 0 <= j < b implies c_post.subrange(0, b)[j] == c_pre.subrange(0, b)[j] by {}
        }
    }
    assert forall|j: int| 0 <= j < n0.len() implies #[trigger] n1[j] == n0[j] by {}
    assert forall|j: int| 0 <= j < n1.len() implies {
        &&& order.contains((#[trigger] n1[j]).node)
        &&& n1[j] == before.handed(n1[j].node, mode_for(full), n1[j].fell_back)
        &&& n1[j].fell_back ==> !full
    } by {
        if j < n0.len() {
            assert(n1[j] == n0[j]);
        } else {
            assert(n1[j] == before.handed(order[i], mode_for(full), fb));
            assert(order[i] == order[i]);
        }
    }
    assert forall|k: int| 0 <= k < w1.len() && #[trigger] w1[k] is Some implies exists|j: int| 0 <= j < n1.len() && (#[trigger] n1[j]).node
        == order[k] by {
        if k < i {
            assert(w1[k] == works0[k]);
            let j = choose|j: int| 0 <= j < n0.len() && (#[trigger] n0[j]).node == order[k];
            assert(n1[j] == n0[j]);
        } else {
            let j = n1.len() - 1;
            assert(n1[j] == before.handed(order[i], mode_for(full), fb));
        }
    }
}

proof fn lemma_failed_count_frame(g1: Graph, g2: Graph, s: Seq<NodeId>)
    requires
        forall|k: int| 0 <= k < s.len() ==> g1.rec(#[trigger] s[k]) == g2.rec(s[k]),
    ensures
        failed_count(g1, s) == failed_count(g2, s),
    decreases s.len(),
{
    if s.len() > 0 {
        let t = s.drop_last();
        assert forall|k: int| 0 <= k < t.len() implies g1.rec(#[trigger] t[k]) == g2.rec(t[k]) by {
            assert(t[k] == s[k]);
        }
        lemma_failed_count_frame(g1, g2, t);
        assert(g1.rec(s[s.len() - 1]) == g2.rec(s[s.len() - 1]));
    }
}

/// How one node's turn in a recompute ended.
enum NodeOutcome {
    Recomputed(WorkMetrics),
    Reused,
    Failed,
}

/// One hand-over of a node to its computation: the node, the nodes handed
/// to it as inputs, the mode asked for, the edit it was shown, and whether
/// an incremental attempt declined so that the full computation ran after it.
pub struct ComputeCall {
    pub node: NodeId,
    pub inputs: Seq<NodeId>,
    pub mode: ComputeMode,
    pub delta: Option<DeltaModel>,
    pub fell_back: bool,
}

/// Nodes, their values and computations, and how edits spread.
#[verifier::reject_recursive_types(V)]
pub struct EngineCore<V> {
    graph: Graph,
    store: MemoryStore<V>,
    computations: Vec<Box<dyn Computation<V>>>,
    computed: Vec<NodeId>,
    inputs: Vec<NodeId>,
    invalidation: InvalidationMode,
    log_level: LogLevel,
    fingerprint_inputs: bool,
    last_delta: Option<(NodeId, Delta)>,
    calls: Ghost<Seq<ComputeCall>>,
}

/// The message of a node that is not an input.
pub open spec fn msg_not_input(id: NodeId) -> Seq<char> {
    crate::id::node_label(id) + " is not an input node"@
}

/// The message of a node that has no computation.
pub open spec fn msg_no_computation(id: NodeId) -> Seq<char> {
    crate::id::node_label(id) + " has no computation"@
}

impl<V> EngineCore<V> {
    /// The graph is consistent.
    pub closed spec fn wf(&self) -> bool {
        &&& self.graph.wf()
        &&& forall|k: int| 0 <= k < self.inputs@.len() ==> self.graph.valid(#[trigger] self.inputs@[k])
        &&& forall|k: int| 0 <= k < self.computed@.len() ==> self.graph.valid(#[trigger] self.computed@[k])
        &&& self.last_delta matches Some(p) ==> self.inputs@.contains(p.0)
    }

    /// The dependency graph.
    pub closed spec fn graph_view(&self) -> Graph {
        self.graph
    }

    /// The values, by slot key.
    pub closed spec fn values(&self) -> Map<u64, V> {
        self.store@
    }

    /// The input nodes, in registration order.
    pub closed spec fn input_ids(&self) -> Seq<NodeId> {
        self.inputs@
    }

    /// The nodes that have a computation, in registration order.
    pub closed spec fn computed_ids(&self) -> Seq<NodeId> {
        self.computed@
    }

    pub closed spec fn invalidation_mode(&self) -> InvalidationMode {
        self.invalidation
    }

    pub closed spec fn level(&self) -> LogLevel {
        self.log_level
    }

    pub closed spec fn uses_fingerprints(&self) -> bool {
        self.fingerprint_inputs
    }

    /// The input whose last edit derived nodes may read.
    pub closed spec fn delta_source(&self) -> Option<NodeId> {
        match self.last_delta {
            Some(p) => Some(p.0),
            None => None,
        }
    }

    /// The last edit of that input.
    pub closed spec fn last_edit(&self) -> Option<DeltaModel> {
        match self.last_delta {
            Some(p) => Some(p.1@),
            None => None,
        }
    }

    /// `id` has a registered computation.
    pub closed spec fn has_computation(&self, id: NodeId) -> bool {
        exists|k: int| 0 <= k < self.computations@.len() && k < self.computed@.len() && self.computed@[k] == id
    }

    /// Every hand-over of a node to its computation so far, in order.
    pub closed spec fn calls(&self) -> Seq<ComputeCall> {
        self.calls@
    }

    /// `after` is this engine's record of hand-overs followed by one more:
    /// `id` handed its inputs and edit in the mode `full` asks for, falling
    /// back to a full computation only from an incremental one.
    pub open spec fn handed_once(&self, after: Seq<ComputeCall>, id: NodeId, full: bool) -> bool {
        exists|fell_back: bool|
            #![trigger self.handed(id, mode_for(full), fell_back)]
            after == self.calls().push(self.handed(id, mode_for(full), fell_back)) && (fell_back ==> !full)
    }

    /// What the computation of `id` is handed in `mode`: its dependencies as
    /// inputs, and the last edit when that edit's input is among them.
    pub open spec fn handed(&self, id: NodeId, mode: ComputeMode, fell_back: bool) -> ComputeCall {
        let deps = self.graph_view().rec(id).dependencies@;
        ComputeCall {
            node: id,
            inputs: deps,
            mode,
            delta: match self.delta_source() {
                Some(src) => if deps.contains(src) { self.last_edit() } else { None },
                None => None,
            },
            fell_back,
        }
    }

    /// An empty engine: eager invalidation, normal logging, no input
    /// fingerprints.
    pub fn new() -> (e: EngineCore<V>)
        ensures
            e.wf(),
            e.graph_view().live_total() == 0,
            e.values() == Map::<u64, V>::empty(),
            e.input_ids().len() == 0,
            e.computed_ids().len() == 0,
            e.invalidation_mode() == InvalidationMode::Eager,
            e.level() == LogLevel::Normal,
            !e.uses_fingerprints(),
            e.delta_source() is None,
    {
        let e = EngineCore {
            graph: Graph::new(),
            store: MemoryStore::new(),
            computations: Vec::new(),
            computed: Vec::new(),
            inputs: Vec::new(),
            invalidation: InvalidationMode::Eager,
            log_level: LogLevel::Normal,
            fingerprint_inputs: false,
            last_delta: None,
            calls: Ghost(Seq::empty()),
        };
        proof {
            assert(e.computed_ids() =~= Seq::<NodeId>::empty());
        }
        e
    }

    pub fn graph(&self) -> (g: &Graph)
        ensures
            *g == self.graph_view(),
    {
        &self.graph
    }

    pub fn store(&self) -> (s: &MemoryStore<V>)
        ensures
            s@ == self.values(),
    {
        &self.store
    }

    pub fn set_invalidation(&mut self, mode: InvalidationMode)
        ensures
            final(self).invalidation_mode() == mode,
            final(self).graph_view() == old(self).graph_view(),
            final(self).values() == old(self).values(),
            final(self).input_ids() == old(self).input_ids(),
            final(self).computed_ids() == old(self).computed_ids(),
            final(self).level() == old(self).level(),
            final(self).uses_fingerprints() == old(self).uses_fingerprints(),
    {
        self.invalidation = mode;
    }

    pub fn set_log_level(&mut self, level: LogLevel)
        ensures
            final(self).level() == level,
            final(self).graph_view() == old(self).graph_view(),
            final(self).values() == old(self).values(),
            final(self).input_ids() == old(self).input_ids(),
            final(self).computed_ids() == old(self).computed_ids(),
            final(self).invalidation_mode() == old(self).invalidation_mode(),
            final(self).uses_fingerprints() == old(self).uses_fingerprints(),
    {
        self.log_level = level;
    }

    pub fn set_fingerprint_inputs(&mut self, on: bool)
        ensures
            final(self).uses_fingerprints() == on,
            final(self).graph_view() == old(self).graph_view(),
            final(self).values() == old(self).values(),
            final(self).input_ids() == old(self).input_ids(),
            final(self).computed_ids() == old(self).computed_ids(),
            final(self).invalidation_mode() == old(self).invalidation_mode(),
            final(self).level() == old(self).level(),
    {
        self.fingerprint_inputs = on;
    }

    /// Whether `id` was registered as an input.
    pub fn is_input(&self, id: NodeId) -> (b: bool)
        ensures
            b == self.input_ids().contains(id),
    {
        let mut k: usize = 0;
        while k < self.inputs.len()
            invariant
                k <= self.inputs@.len(),
                forall|j: int| 0 <= j < k ==> self.inputs@[j] != id,
            decreases self.inputs@.len() - k,
        {
            if self.inputs[k] == id {
                return true;
            }
            k = k + 1;
        }
        false
    }

    /// The value of node `id`, if it has one.
    pub fn value(&self, id: NodeId) -> (r: Option<&V>)
        ensures
            r == (if self.values().contains_key(slot_key(id)) { Some(&self.values()[slot_key(id)]) } else { None }),
    {
        self.store.get_as(id)
    }

    pub fn inspect(&self, id: NodeId) -> (r: Result<NodeInspect, Error>)
        requires
            self.wf(),
        ensures
            r is Ok <==> self.graph_view().valid(id),
            r matches Err(e) ==> e == self.graph_view().lookup_error(id),
            r matches Ok(v) ==> v.id == self.graph_view().rec(id).id && v.status == self.graph_view().rec(id).status
                && v.version == self.graph_view().rec(id).version && v.name@ == self.graph_view().rec(id).name@,
    {
        self.graph.inspect(id)
    }

    fn insert_node(&mut self, name: &str, kind: &str) -> (r: Result<NodeId, Error>)
        requires
            old(self).wf(),
        ensures
            final(self).wf(),
            final(self).values() == old(self).values(),
            final(self).input_ids() == old(self).input_ids(),
            final(self).computed_ids() == old(self).computed_ids(),
            final(self).invalidation_mode() == old(self).invalidation_mode(),
            final(self).level() == old(self).level(),
            final(self).uses_fingerprints() == old(self).uses_fingerprints(),
            r is Ok <==> has_room(old(self).graph_view()),
            r matches Err(e) ==> no_room(old(self).graph_view(), e) && *final(self) == *old(self),
            r matches Ok(id) ==> final(self).graph_view().valid(id)
                && id == old(self).graph_view().next_id()
                && is_fresh_record(final(self).graph_view().rec(id), id, name@, kind@)
                && !old(self).graph_view().valid(id)
                && final(self).graph_view().edge_total() == old(self).graph_view().edge_total()
                && final(self).graph_view().limits_of() == old(self).graph_view().limits_of()
                && (forall|x: NodeId| #[trigger] final(self).graph_view().valid(x) == (old(self).graph_view().valid(x) || x == id)),
            forall|x: NodeId| old(self).graph_view().valid(x) ==> #[trigger] final(self).graph_view().valid(x),
            forall|x: NodeId| old(self).graph_view().valid(x) ==> #[trigger] final(self).graph_view().rec(x) == old(self).graph_view().rec(x),
    {
        if self.graph.slot_total() >= 0xffff_ffff {
            return Err(Error::Limit(owned("node slots exhausted")));
        }
        let ghost g = self.graph;
        let r = self.graph.insert(name, kind);
        proof {
            assert forall|x: NodeId| g.valid(x) implies #[trigger] self.graph.valid(x) && self.graph.rec(x) == g.rec(x) by {
                lemma_valid_not_next(g, x);
            }
            assert forall|x: NodeId| old(self).graph_view().valid(x) implies #[trigger] self.graph_view().rec(x) == old(self).graph_view().rec(x) by {
                assert(old(self).graph_view() == g);
                assert(self.graph.valid(x));
            }
            if r is Ok {
                let id = r->Ok_0;
                if g.valid(id) {
                    lemma_valid_not_next(g, id);
                }
            }
        }
        r
    }

    /// Register an input node holding `value`: it starts clean, at version 1.
    pub fn register_input(&mut self, name: &str, kind: &str, value: V) -> (r: Result<NodeId, Error>)
        requires
            old(self).wf(),
        ensures
            final(self).wf(),
            final(self).computed_ids() == old(self).computed_ids(),
            r is Ok <==> has_room(old(self).graph_view()),
            r matches Err(e) ==> no_room(old(self).graph_view(), e) && *final(self) == *old(self),
            r matches Ok(id) ==> {
                &&& final(self).graph_view().valid(id)
                &&& id == old(self).graph_view().next_id()
                &&& final(self).graph_view().rec(id).name@ == name@
                &&& final(self).graph_view().rec(id).kind@ == kind@
                &&& final(self).graph_view().rec(id).status == NodeStatus::Clean
                &&& final(self).graph_view().rec(id).version == Version(1)
                &&& final(self).values() == old(self).values().insert(slot_key(id), value)
                &&& final(self).input_ids() == old(self).input_ids().push(id)
            },
    {
        let id = self.insert_node(name, kind)?;
        self.store.insert(id, value);
        let ghost before = self.inputs@;
        self.inputs.push(id);
        proof {
            if self.last_delta is Some {
                let src = self.last_delta->Some_0.0;
                let j = choose|j: int| 0 <= j < before.len() && before[j] == src;
                assert(self.inputs@[j] == src);
            }
        }
        let st = self.graph.state(id)?;
        let st = NodeState { status: NodeStatus::Clean, version: Version::never().bump(), ..st };
        self.graph.set_state(id, st)?;
        Ok(id)
    }

    /// Register a derived node computed by `computation` from `deps`, in
    /// that order. It starts pending.
    pub fn register(&mut self, computation: Box<dyn Computation<V>>, deps: &[NodeId]) -> (r: Result<NodeId, Error>)
        requires
            old(self).wf(),
        ensures
            final(self).wf(),
            final(self).values() == old(self).values(),
            final(self).input_ids() == old(self).input_ids(),
            r is Ok <==> registers(old(self).graph_view(), deps@),
            !has_room(old(self).graph_view()) ==> (r matches Err(e) && no_room(old(self).graph_view(), e)
                && *final(self) == *old(self)),
            r matches Err(e) ==> !has_room(old(self).graph_view())
                || e.is_cycle(msg_self_cycle(old(self).graph_view().next_id()))
                || e matches Error::Limit(_)
                || exists|k: int| 0 <= k < deps@.len() && e == final(self).graph_view().lookup_error(#[trigger] deps@[k]),
            r matches Ok(id) ==> {
                &&& final(self).graph_view().valid(id)
                &&& id == old(self).graph_view().next_id()
                &&& final(self).graph_view().rec(id).status == NodeStatus::Pending
                &&& final(self).graph_view().rec(id).dependents@.len() == 0
                &&& final(self).computed_ids() == old(self).computed_ids().push(id)
                &&& forall|y: NodeId| #[trigger] final(self).graph_view().rec(id).dependencies@.contains(y) <==> deps@.contains(y)
                &&& final(self).graph_view().edge_total() == old(self).graph_view().edge_total() + deps@.to_set().len()
            },
    {
        let ghost g0 = self.graph;
        let id = self.insert_node(computation.name(), computation.kind())?;
        let ghost g1 = self.graph;
        proof {
            assert(deps@.take(0).to_set() =~= Set::<NodeId>::empty());
        }
        let mut k: usize = 0;
        while k < deps.len()
            invariant
                self.wf(),
                g0.wf(),
                g0 == old(self).graph,
                has_room(g0),
                id == g0.next_id(),
                !g0.valid(id),
                self.graph.valid(id),
                k <= deps@.len(),
                self.values() == old(self).values(),
                self.input_ids() == old(self).input_ids(),
                self.computed_ids() == old(self).computed_ids(),
                forall|x: NodeId| #[trigger] self.graph.valid(x) == (g0.valid(x) || x == id),
                self.graph.rec(id).status == NodeStatus::Pending,
                self.graph.rec(id).dependents@.len() == 0,
                forall|y: NodeId| #[trigger] self.graph.rec(id).dependencies@.contains(y) <==> deps@.take(k as int).contains(y),
                deps@.take(k as int).to_set().finite(),
                self.graph.edge_total() == g0.edge_total() + deps@.take(k as int).to_set().len(),
                self.graph.limits_of() == g0.limits_of(),
                forall|j: int| 0 <= j < k ==> g0.valid(#[trigger] deps@[j])
                    && g0.edge_total() + deps@.take(j).to_set().len() < g0.limits_of().max_edges,
            decreases deps@.len() - k,
        {
            let d = deps[k];
            proof {
                lemma_no_dependents_not_downstream(self.graph, id, d);
                lemma_to_set_step(deps@, k as int);
            }
            let ghost before = self.graph;
            let added = self.graph.add_dependency(id, d);
            match added {
                Ok(()) => {},
                Err(e) => {
                    proof {
                        if d != id && before.valid(d) {
                            assert(before.edge_total() >= before.limits_of().max_edges);
                        }
                        assert(!(g0.valid(deps@[k as int]) && g0.edge_total() + deps@.take(k as int).to_set().len()
                            < g0.limits_of().max_edges));
                        assert(!registers(g0, deps@));
                    }
                    return Err(e);
                },
            }
            proof {
                assert(g0.valid(d)) by {
                    if d == id {
                    } else {
                        assert(before.valid(d));
                    }
                }
                assert forall|y: NodeId| #[trigger] self.graph.rec(id).dependencies@.contains(y) <==> deps@.take(k + 1).contains(y) by {
                    assert(deps@.take(k + 1).to_set().contains(y) == deps@.take(k + 1).contains(y));
                    assert(deps@.take(k as int).to_set().contains(y) == deps@.take(k as int).contains(y));
                }
                assert forall|x: NodeId| #[trigger] self.graph.valid(x) == (g0.valid(x) || x == id) by {
                    assert(before.valid(x) == self.graph.valid(x));
                }
                assert(deps@.take(k as int).contains(d) == before.rec(id).dependencies@.contains(d));
                assert(before.edge_total() < before.limits_of().max_edges);
                assert forall|j: int| 0 <= j < k + 1 implies g0.valid(#[trigger] deps@[j])
                    && g0.edge_total() + deps@.take(j).to_set().len() < g0.limits_of().max_edges by {
                    if j == k {
                        assert(deps@[j] == d);
                    }
                }
            }
            k = k + 1;
        }
        proof {
            assert(deps@.take(deps@.len() as int) =~= deps@);
            assert(registers(g0, deps@));
        }
        self.computations.push(computation);
        self.computed.push(id);
        Ok(id)
    }
}

/// Whether registering a node with dependencies `deps` succeeds on `g`:
/// there is room for the node, every dependency is live, and when each one
/// is added the edges counted so far (the distinct dependencies before it)
/// are still under the limit.
pub open spec fn registers(g: Graph, deps: Seq<NodeId>) -> bool {
    &&& has_room(g)
    &&& forall|k: int| 0 <= k < deps.len() ==> g.valid(#[trigger] deps[k])
        && g.edge_total() + deps.take(k).to_set().len() < g.limits_of().max_edges
}

/// The distinct elements of a prefix grow by the next element.
proof fn lemma_to_set_step(s: Seq<NodeId>, k: int)
    requires
        0 <= k < s.len(),
    ensures
        s.take(k + 1).to_set() == s.take(k).to_set().insert(s[k]),
        s.take(k).to_set().finite(),
        s.take(k + 1).to_set().finite(),
        s.take(k).to_set().contains(s[k]) ==> s.take(k + 1).to_set().len() == s.take(k).to_set().len(),
        !s.take(k).to_set().contains(s[k]) ==> s.take(k + 1).to_set().len() == s.take(k).to_set().len() + 1,
{
    broadcast use {vstd::set::group_set_axioms, vstd::seq_lib::seq_to_set_is_finite};
    assert forall|a: NodeId| #[trigger] s.take(k + 1).to_set().contains(a) == s.take(k).to_set().insert(s[k]).contains(a) by {
        if s.take(k + 1).contains(a) {
            let j = choose|j: int| 0 <= j < k + 1 && #[trigger] s.take(k + 1)[j] == a;
            if j < k {
                assert(s.take(k)[j] == a);
            }
        }
        if s.take(k).contains(a) {
            let j = choose|j: int| 0 <= j < k && #[trigger] s.take(k)[j] == a;
            assert(s.take(k + 1)[j] == a);
        }
        assert(s.take(k + 1)[k] == s[k]);
    }
    assert(s.take(k + 1).to_set() =~= s.take(k).to_set().insert(s[k]));
}

/// Milliseconds with four decimals, rounded to the nearest tenth of a
/// microsecond, halves up.
pub open spec fn ms_text(nanos: nat) -> Seq<char> {
    let t = (nanos + 50) / 100;
    decimal(t / 10000) + seq!['.'] + four_digits(t % 10000)
}

/// The four decimal digits of `n`, zero padded.
pub open spec fn four_digits(n: nat) -> Seq<char> {
    seq![digit_char(n / 1000 % 10), digit_char(n / 100 % 10), digit_char(n / 10 % 10), digit_char(n % 10)]
}

fn append_digit(s: &mut String, d: u128)
    requires
        d < 10,
    ensures
        final(s)@ == old(s)@.push(digit_char(d as nat)),
{
    let c = (48u8 + d as u8) as char;
    push_char(s, c);
}

/// Appends `ms_text(nanos)`.
fn append_ms(s: &mut String, nanos: u128)
    ensures
        final(s)@ == old(s)@ + ms_text(nanos as nat),
{
    let ghost start = s@;
    let t = nanos / 100 + (if nanos % 100 >= 50 { 1u128 } else { 0u128 });
    assert(t == (nanos as nat + 50) / 100) by (nonlinear_arith)
        requires
            t == nanos / 100 + (if nanos % 100 >= 50 { 1int } else { 0int }),
    ;
    append_decimal(s, t / 10000);
    push_char(s, '.');
    let f = t % 10000;
    append_digit(s, f / 1000 % 10);
    append_digit(s, f / 100 % 10);
    append_digit(s, f / 10 % 10);
    append_digit(s, f % 10);
    assert(s@ =~= start + ms_text(nanos as nat));
}

fn copy_ids(v: &Vec<NodeId>) -> (r: Vec<NodeId>)
    ensures
        r@ == v@,
{
    let mut r: Vec<NodeId> = Vec::new();
    let mut k: usize = 0;
    while k < v.len()
        invariant
            k <= v@.len(),
            r@ == v@.take(k as int),
        decreases v@.len() - k,
    {
        r.push(v[k]);
        proof {
            assert(v@.take(k + 1) =~= v@.take(k as int).push(v@[k as int]));
        }
        k = k + 1;
    }
    proof {
        assert(v@.take(k as int) =~= v@);
    }
    r
}

fn contains_id(v: &[NodeId], id: NodeId) -> (b: bool)
    ensures
        b == v@.contains(id),
{
    let mut k: usize = 0;
    while k < v.len()
        invariant
            k <= v@.len(),
            forall|j: int| 0 <= j < k ==> v@[j] != id,
        decreases v@.len() - k,
    {
        if v[k] == id {
            return true;
        }
        k = k + 1;
    }
    false
}

impl<V> EngineCore<V> {
    /// Appends `msg` to `log` when the engine logs at `needed`.
    fn note(&self, log: &mut Vec<String>, needed: LogLevel, msg: String)
        ensures
            final(log)@ == (if level_rank(self.log_level) >= level_rank(needed) { old(log)@.push(msg) } else { old(log)@ }),
    {
        if self.log_level.allows(needed) {
            log.push(msg);
        }
    }

    /// An input just took a new value: it is clean at the next version, and
    /// remembers that it changed.
    fn bump_input(&mut self, id: NodeId) -> (r: Result<(), Error>)
        requires
            old(self).wf(),
        ensures
            final(self).wf(),
            r is Ok <==> old(self).graph.valid(id),
            r is Err ==> *final(self) == *old(self),
            r is Ok ==> final(self).graph.rec(id).status == NodeStatus::Clean
                && final(self).graph.rec(id).version.0 == crate::version::bumped(old(self).graph.rec(id).version.0),
            forall|x: NodeId| #[trigger] final(self).graph.valid(x) == old(self).graph.valid(x),
            forall|x: NodeId| old(self).graph.valid(x) && x != id ==> #[trigger] final(self).graph.rec(x) == old(self).graph.rec(x),
            final(self).store == old(self).store,
            final(self).inputs == old(self).inputs,
            final(self).computed == old(self).computed,
            final(self).invalidation == old(self).invalidation,
            final(self).log_level == old(self).log_level,
            final(self).fingerprint_inputs == old(self).fingerprint_inputs,
            final(self).last_delta == old(self).last_delta,
            forall|x: NodeId| old(self).graph.valid(x) ==> same_identity_edges(#[trigger] final(self).graph.rec(x), old(self).graph.rec(x)),
            final(self).graph.slot_count() == old(self).graph.slot_count(),
            final(self).graph.limits_of() == old(self).graph.limits_of(),
    {
        let st = self.graph.state(id)?;
        let st = NodeState {
            status: NodeStatus::Clean,
            version: st.version.bump(),
            last_invalidation: Some(InvalidationReason::InputChanged),
            ..st
        };
        self.graph.set_state(id, st)?;
        Ok(())
    }

    /// Store a new value for the input `id` and invalidate what depends on
    /// it, remembering `delta` as the edit that produced the value. Also
    /// reports how long the invalidation took, in nanoseconds.
    pub fn input_changed(&mut self, id: NodeId, value: V, delta: Option<Delta>) -> (r: Result<(InvalidationReport, u128), Error>)
        requires
            old(self).wf(),
        ensures
            final(self).wf(),
            old(self).input_ids().contains(id) ==> input_change_outcome(
                old(self).graph_view(),
                final(self).graph_view(),
                id,
                old(self).invalidation_mode(),
                r,
            ),
            !old(self).input_ids().contains(id) ==> (r matches Err(Error::Graph(m)) && m@ == msg_not_input(id)
                && *final(self) == *old(self)),
            old(self).input_ids().contains(id) ==> final(self).values() == old(self).values().insert(slot_key(id), value),
            r is Ok ==> final(self).delta_source() == (match delta { Some(_) => Some(id), None => None::<NodeId> }),
            final(self).input_ids() == old(self).input_ids(),
            final(self).computed_ids() == old(self).computed_ids(),
    {
        if !self.is_input(id) {
            let mut m = id.label();
            append_str(&mut m, " is not an input node");
            proof {
                reveal_strlit(" is not an input node");
            }
            return Err(Error::Graph(m));
        }
        self.store.insert(id, value);
        let ghost before = self.graph;
        self.bump_input(id)?;
        proof {
            let mid = self.graph;
            lemma_same_edges_same_invalidation_set(before, mid, id, false, self.invalidation);
            lemma_seed_not_marked(mid, id, self.invalidation);
        }
        let t = clock_now();
        let inv = self.graph.invalidate(id, false, self.invalidation, InvalidationReason::InputChanged)?;
        let nanos = duration_as_nanos(&clock_elapsed(&t));
        self.last_delta = match delta {
            Some(d) => Some((id, d)),
            None => None,
        };
        Ok((inv, nanos))
    }

    /// In lazy mode, the edit remembered last finally reaches the nodes
    /// downstream of its input.
    fn discover_lazy(&mut self) -> (r: Result<(), Error>)
        requires
            old(self).wf(),
        ensures
            final(self).wf(),
            forall|x: NodeId| #[trigger] final(self).graph.valid(x) == old(self).graph.valid(x),
            final(self).inputs == old(self).inputs,
            final(self).computed == old(self).computed,
            final(self).store == old(self).store,
            final(self).invalidation == old(self).invalidation,
            final(self).log_level == old(self).log_level,
            final(self).fingerprint_inputs == old(self).fingerprint_inputs,
            final(self).last_delta == old(self).last_delta,
            lazy_discovery(old(self).graph, final(self).graph, lazy_source(old(self).invalidation, old(self).delta_source()), r),
    {
        if self.invalidation != InvalidationMode::Lazy {
            return Ok(());
        }
        let src = match &self.last_delta {
            Some(p) => p.0,
            None => {
                return Ok(());
            },
        };
        proof {
            let j = choose|j: int| 0 <= j < self.inputs@.len() && self.inputs@[j] == src;
            assert(self.graph.valid(self.inputs@[j]));
        }
        let dependency = self.graph.node(src)?.name.clone();
        let reason = InvalidationReason::DependencyChanged { dependency };
        let ghost before = self.graph;
        let ghost why = reason;
        let done = self.graph.invalidate(src, false, InvalidationMode::Eager, reason);
        proof {
            if done is Ok {
                assert(why matches InvalidationReason::DependencyChanged { dependency } && dependency@ == before.rec(src).name@);
            }
        }
        done?;
        Ok(())
    }

    /// Let a lazy invalidation reach its dependents, then count the nodes by
    /// status: what a recompute decision is made on.
    pub fn prepare(&mut self) -> (r: Result<GraphStats, Error>)
        requires
            old(self).wf(),
        ensures
            final(self).wf(),
            final(self).input_ids() == old(self).input_ids(),
            final(self).computed_ids() == old(self).computed_ids(),
            final(self).values() == old(self).values(),
            r matches Ok(st) ==> stats_of(final(self).graph_view(), st),
            lazy_discovery(
                old(self).graph_view(),
                final(self).graph_view(),
                lazy_source(old(self).invalidation_mode(), old(self).delta_source()),
                match r {
                    Ok(_) => Ok(()),
                    Err(e) => Err(e),
                },
            ),
    {
        self.discover_lazy()?;
        Ok(self.graph.stats())
    }
}

impl<V> EngineCore<V> {
    /// Before a full recompute: every node that is not an input becomes
    /// dirty, for the reason that the policy chose full recomputation.
    fn mark_all_computed_dirty(&mut self) -> (r: Result<(), Error>)
        requires
            old(self).wf(),
        ensures
            final(self).wf(),
            r is Ok,
            final(self).graph.limits_of() == old(self).graph.limits_of(),
            forall|x: NodeId| #[trigger] final(self).graph.valid(x) == old(self).graph.valid(x),
            forall|x: NodeId| final(self).graph.valid(x) ==> (#[trigger] final(self).graph.rec(x)).version == old(self).graph.rec(x).version,
            forall|x: NodeId| final(self).graph.valid(x) && !old(self).inputs@.contains(x) ==> (#[trigger] final(self).graph.rec(x)).status == NodeStatus::Dirty,
            forall|x: NodeId| final(self).graph.valid(x) && old(self).inputs@.contains(x) ==> #[trigger] final(self).graph.rec(x) == old(self).graph.rec(x),
            forall|x: NodeId| final(self).graph.valid(x) ==> same_identity_edges(#[trigger] final(self).graph.rec(x), old(self).graph.rec(x)),
            final(self).calls == old(self).calls,
            final(self).inputs == old(self).inputs,
            final(self).computed == old(self).computed,
            final(self).store == old(self).store,
            final(self).invalidation == old(self).invalidation,
            final(self).log_level == old(self).log_level,
            final(self).fingerprint_inputs == old(self).fingerprint_inputs,
            final(self).last_delta == old(self).last_delta,
    {
        let ids = self.graph.live_ids();
        let ghost g = self.graph;
        let mut k: usize = 0;
        while k < ids.len()
            invariant
                self.wf(),
                k <= ids@.len(),
                ascending(ids@),
                forall|j: int| 0 <= j < ids@.len() ==> g.valid(#[trigger] ids@[j]),
                forall|x: NodeId| g.valid(x) ==> ids@.contains(x),
                forall|x: NodeId| #[trigger] self.graph.valid(x) == g.valid(x),
                self.graph.limits_of() == g.limits_of(),
                forall|x: NodeId| self.graph.valid(x) ==> (#[trigger] self.graph.rec(x)).version == g.rec(x).version,
                forall|x: NodeId| self.graph.valid(x) ==> same_identity_edges(#[trigger] self.graph.rec(x), g.rec(x)),
                self.calls == old(self).calls,
                forall|j: int| 0 <= j < k && !self.inputs@.contains(ids@[j]) ==> (#[trigger] self.graph.rec(ids@[j])).status == NodeStatus::Dirty,
                forall|x: NodeId| g.valid(x) && (self.inputs@.contains(x) || !ids@.take(k as int).contains(x)) ==> #[trigger] self.graph.rec(x) == g.rec(x),
                self.inputs == old(self).inputs,
                self.computed == old(self).computed,
                self.store == old(self).store,
                self.invalidation == old(self).invalidation,
                self.log_level == old(self).log_level,
                self.fingerprint_inputs == old(self).fingerprint_inputs,
                self.last_delta == old(self).last_delta,
            decreases ids@.len() - k,
        {
            let id = ids[k];
            if !self.is_input(id) {
                let ghost before = self.graph;
                let st = self.graph.state(id).unwrap();
                let st = NodeState {
                    status: NodeStatus::Dirty,
                    last_invalidation: Some(InvalidationReason::PolicyChoseFull),
                    ..st
                };
                let _ = self.graph.set_state(id, st);
                proof {
                    assert forall|j: int| 0 <= j < k + 1 && !self.inputs@.contains(ids@[j]) implies (#[trigger] self.graph.rec(ids@[j])).status == NodeStatus::Dirty by {
                        if j < k {
                            assert(ids@[j].index < ids@[k as int].index);
                        }
                    }
                    assert forall|x: NodeId| g.valid(x) && (self.inputs@.contains(x) || !ids@.take(k + 1).contains(x)) implies #[trigger] self.graph.rec(x) == g.rec(x) by {
                        if x != id {
                            if !self.inputs@.contains(x) {
                                assert(!ids@.take(k as int).contains(x)) by {
                                    if ids@.take(k as int).contains(x) {
                                        let j = choose|j: int| 0 <= j < k && ids@.take(k as int)[j] == x;
                                        assert(ids@.take(k + 1)[j] == x);
                                    }
                                }
                            }
                        } else {
                            assert(ids@.take(k + 1)[k as int] == x);
                        }
                    }
                }
            } else {
                proof {
                    assert forall|x: NodeId| g.valid(x) && (self.inputs@.contains(x) || !ids@.take(k + 1).contains(x)) implies #[trigger] self.graph.rec(x) == g.rec(x) by {
                        if !self.inputs@.contains(x) && ids@.take(k as int).contains(x) {
                            let j = choose|j: int| 0 <= j < k && ids@.take(k as int)[j] == x;
                            assert(ids@.take(k + 1)[j] == x);
                        }
                    }
                }
            }
            k = k + 1;
        }
        proof {
            assert forall|x: NodeId| self.graph.valid(x) && !old(self).inputs@.contains(x) implies (#[trigger] self.graph.rec(x)).status == NodeStatus::Dirty by {
                assert(ids@.contains(x));
                let j = choose|j: int| 0 <= j < ids@.len() && ids@[j] == x;
            }
            assert forall|x: NodeId| self.graph.valid(x) && old(self).inputs@.contains(x) implies #[trigger] self.graph.rec(x) == old(self).graph.rec(x) by {
            }
        }
        Ok(())
    }
}

impl<V> EngineCore<V> {
    /// The edit remembered last, when its input is one of `deps`.
    fn delta_for(&self, deps: &[NodeId]) -> (r: Option<Delta>)
        ensures
            match self.last_delta {
                Some(p) => if deps@.contains(p.0) { r matches Some(d) && d@ == p.1@ } else { r is None },
                None => r is None,
            },
    {
        match &self.last_delta {
            Some(p) => {
                if contains_id(deps, p.0) {
                    Some(p.1.duplicate())
                } else {
                    None
                }
            },
            None => None,
        }
    }

    /// Run the computation of `id`: incrementally first when `mode` says so,
    /// falling back to the full computation when the incremental one
    /// declines. The hand-over is added to the engine's record of calls.
    fn invoke(&mut self, id: NodeId, deps: &[NodeId], mode: ComputeMode, delta: Option<&Delta>) -> (r: Result<ComputeOutput<V>, Error>)
        requires
            old(self).wf(),
        ensures
            !old(self).computed@.contains(id) ==> (r matches Err(Error::Graph(m)) && m@ == msg_no_computation(id)),
            !old(self).has_computation(id) ==> final(self).calls@ == old(self).calls@,
            !old(self).has_computation(id) ==> (r matches Err(Error::Graph(m)) && m@ == msg_no_computation(id)),
            old(self).has_computation(id) ==> exists|fell_back: bool| #![trigger old(self).calls@.push(shown_call(id, deps@, mode, delta, fell_back))]
                final(self).calls@ == old(self).calls@.push(shown_call(id, deps@, mode, delta, fell_back))
                && (fell_back ==> mode == ComputeMode::Incremental),
            final(self).graph == old(self).graph,
            final(self).store == old(self).store,
            final(self).computations == old(self).computations,
            final(self).computed == old(self).computed,
            final(self).inputs == old(self).inputs,
            final(self).invalidation == old(self).invalidation,
            final(self).log_level == old(self).log_level,
            final(self).fingerprint_inputs == old(self).fingerprint_inputs,
            final(self).last_delta == old(self).last_delta,
    {
        let mut k: usize = 0;
        let mut found = false;
        while k < self.computed.len() && !found
            invariant
                k <= self.computed@.len(),
                found ==> k < self.computed@.len() && self.computed@[k as int] == id,
                forall|j: int| 0 <= j < k ==> self.computed@[j] != id,
            decreases self.computed@.len() - k, (if found { 0int } else { 1int }),
        {
            if self.computed[k] == id {
                found = true;
            } else {
                k = k + 1;
            }
        }
        if !found || k >= self.computations.len() {
            proof {
                if self.has_computation(id) {
                    let j = choose|j: int| 0 <= j < self.computations@.len() && j < self.computed@.len() && self.computed@[j] == id;
                    assert(j >= k);
                }
            }
            let mut m = id.label();
            append_str(&mut m, " has no computation");
            proof {
                reveal_strlit(" has no computation");
            }
            return Err(Error::Graph(m));
        }
        let comp = &self.computations[k];
        let ctx = self.ctx_for(id, deps, mode, delta);
        let mut fell_back = false;
        let r = if mode == ComputeMode::Incremental {
            match incremental_answer(comp.compute_incremental(ctx)) {
                Some(answer) => answer,
                None => {
                    fell_back = true;
                    let ctx = self.ctx_for(id, deps, ComputeMode::Full, delta);
                    comp.compute(ctx)
                },
            }
        } else {
            comp.compute(ctx)
        };
        self.calls = Ghost(self.calls@.push(shown_call(id, deps@, mode, delta, fell_back)));
        r
    }

    /// What the computation of `id` is handed: the node, its dependencies in
    /// order, the store, its own previous value, the edit, and the mode.
    fn ctx_for<'a>(&'a self, id: NodeId, deps: &'a [NodeId], mode: ComputeMode, delta: Option<&'a Delta>) -> (c: ComputeCtx<'a, V>)
        ensures
            c.node == id,
            c.inputs@ == deps@,
            c.store@ == self.store@,
            c.previous == (if self.store@.contains_key(slot_key(id)) { Some(&self.store@[slot_key(id)]) } else { None }),
            c.delta == delta,
            c.mode == mode,
    {
        ComputeCtx { node: id, inputs: deps, store: &self.store, previous: self.store.get_as(id), delta, mode }
    }

    /// Record what the computation of `id` gave back: on success its value
    /// is stored, and the node is clean at its next version with the output's
    /// fingerprint; on failure the node is failed. Either way the time it
    /// took is recorded.
    fn settle(
        &mut self,
        id: NodeId,
        computed: Result<ComputeOutput<V>, Error>,
        elapsed: u128,
        name: String,
        hashing: &mut u128,
        log: &mut Vec<String>,
    ) -> (o: NodeOutcome)
        requires
            old(self).wf(),
            old(self).graph.valid(id),
        ensures
            final(self).wf(),
            forall|x: NodeId| #[trigger] final(self).graph.valid(x) == old(self).graph.valid(x),
            forall|x: NodeId| old(self).graph.valid(x) && x != id ==> #[trigger] final(self).graph.rec(x) == old(self).graph.rec(x),
            same_identity_edges(final(self).graph.rec(id), old(self).graph.rec(id)),
            final(self).graph.rec(id).input_fingerprint == old(self).graph.rec(id).input_fingerprint,
            final(self).graph.rec(id).last_compute_nanos == elapsed,
            final(self).inputs == old(self).inputs,
            final(self).computed == old(self).computed,
            final(self).invalidation == old(self).invalidation,
            final(self).log_level == old(self).log_level,
            final(self).fingerprint_inputs == old(self).fingerprint_inputs,
            final(self).last_delta == old(self).last_delta,
            final(self).calls == old(self).calls,
            final(self).computations == old(self).computations,
            match computed {
                Ok(out) => {
                    &&& o == NodeOutcome::Recomputed(out.work)
                    &&& final(self).store@ == old(self).store@.insert(slot_key(id), out.value)
                    &&& final(self).graph.rec(id).status == NodeStatus::Clean
                    &&& final(self).graph.rec(id).version.0 == crate::version::bumped(old(self).graph.rec(id).version.0)
                    &&& final(self).graph.rec(id).output_fingerprint == out.fingerprint
                    &&& *final(hashing) == (if *old(hashing) + out.work.hashing_nanos.0 <= u128::MAX {
                        (*old(hashing) + out.work.hashing_nanos.0) as u128
                    } else {
                        u128::MAX
                    })
                },
                Err(_) => {
                    &&& o is Failed
                    &&& final(self).store == old(self).store
                    &&& final(self).graph.rec(id).status == NodeStatus::Failed
                    &&& final(self).graph.rec(id).version == old(self).graph.rec(id).version
                    &&& final(self).graph.rec(id).output_fingerprint == old(self).graph.rec(id).output_fingerprint
                    &&& *final(hashing) == *old(hashing)
                },
            },
    {
        match computed {
            Ok(output) => {
                let ComputeOutput { value, fingerprint, work } = output;
                self.store.insert(id, value);
                let st = self.graph.state(id).unwrap();
                let count = st.last_recompute_count.saturating_add(1);
                let st = NodeState {
                    status: NodeStatus::Clean,
                    version: st.version.bump(),
                    output_fingerprint: fingerprint,
                    last_compute_nanos: elapsed,
                    last_recompute_count: count,
                    ..st
                };
                let _ = self.graph.set_state(id, st);
                *hashing = hashing.saturating_add(work.hashing_nanos.0);
                let mut m = name;
                append_str(&mut m, ": recomputed in ");
                append_ms(&mut m, elapsed);
                append_str(&mut m, " ms");
                self.note(log, LogLevel::Debug, m);
                NodeOutcome::Recomputed(work)
            },
            Err(err) => {
                let st = self.graph.state(id).unwrap();
                let st = NodeState { status: NodeStatus::Failed, last_compute_nanos: elapsed, ..st };
                let _ = self.graph.set_state(id, st);
                let mut m = name;
                append_str(&mut m, ": ");
                append_str(&mut m, err.message().as_str());
                self.note(log, LogLevel::Normal, m);
                NodeOutcome::Failed
            },
        }
    }

    /// When input fingerprints are on: the combined fingerprint of the
    /// dependencies' outputs. A node whose inputs combine as they did last
    /// time and that still has its value is clean without running.
    fn try_fingerprint_reuse(&mut self, id: NodeId, deps: &[NodeId], hashing: &mut u128) -> (r: Result<Option<NodeOutcome>, Error>)
        requires
            old(self).wf(),
            old(self).graph.valid(id),
            deps@ == old(self).graph.rec(id).dependencies@,
        ensures
            final(self).wf(),
            r is Ok,
            forall|x: NodeId| #[trigger] final(self).graph.valid(x) == old(self).graph.valid(x),
            forall|x: NodeId| old(self).graph.valid(x) && x != id ==> #[trigger] final(self).graph.rec(x) == old(self).graph.rec(x),
            same_identity_edges(final(self).graph.rec(id), old(self).graph.rec(id)),
            final(self).graph.rec(id).version == old(self).graph.rec(id).version,
            final(self).graph.rec(id).output_fingerprint == old(self).graph.rec(id).output_fingerprint,
            ({
                let fp = combined_inputs(old(self).graph, deps@, inputs_seed());
                &&& (r matches Ok(Some(_)) <==> reusable(old(self).graph, old(self).store@, id))
                &&& r matches Ok(Some(o)) ==> o is Reused && final(self).graph.rec(id).status == NodeStatus::Clean
                    && final(self).graph.rec(id).input_fingerprint == old(self).graph.rec(id).input_fingerprint
                &&& r matches Ok(None) ==> final(self).graph.rec(id).status == old(self).graph.rec(id).status
                    && final(self).graph.rec(id).input_fingerprint == (match fp {
                        Some(v) => Some(Fingerprint(v)),
                        None => old(self).graph.rec(id).input_fingerprint,
                    })
            }),
            final(self).inputs == old(self).inputs,
            final(self).computed == old(self).computed,
            final(self).store == old(self).store,
            final(self).invalidation == old(self).invalidation,
            final(self).log_level == old(self).log_level,
            final(self).fingerprint_inputs == old(self).fingerprint_inputs,
            final(self).last_delta == old(self).last_delta,
            final(self).calls == old(self).calls,
            final(self).computations == old(self).computations,
    {
        proof {
            lemma_dependencies_valid(self.graph, id);
        }
        let t0 = clock_now();
        let seed: Vec<u8> = vec![105u8, 110u8];
        let mut acc = Fingerprint::of_bytes(seed.as_slice());
        proof {
            assert(seed@ =~= seq![105u8, 110u8]);
            assert(deps@.skip(0) =~= deps@);
        }
        let mut k: usize = 0;
        while k < deps.len()
            invariant
                k <= deps@.len(),
                self.wf(),
                *self == *old(self),
                deps@ == old(self).graph.rec(id).dependencies@,
                forall|j: int| 0 <= j < deps@.len() ==> self.graph.valid(#[trigger] deps@[j]),
                combined_inputs(self.graph, deps@, inputs_seed()) == combined_inputs(self.graph, deps@.skip(k as int), acc.0),
            decreases deps@.len() - k,
        {
            proof {
                assert(self.graph.valid(deps@[k as int]));
                assert(deps@.skip(k as int)[0] == deps@[k as int]);
                assert(deps@.skip(k as int).drop_first() =~= deps@.skip(k + 1));
            }
            match self.graph.node(deps[k])?.output_fingerprint {
                Some(fp) => {
                    acc = acc.combine(fp);
                },
                None => {
                    return Ok(None);
                },
            }
            k = k + 1;
        }
        proof {
            assert(deps@.skip(deps@.len() as int) =~= Seq::<NodeId>::empty());
        }
        *hashing = hashing.saturating_add(duration_as_nanos(&clock_elapsed(&t0)));
        let st = self.graph.state(id)?;
        let same = match st.input_fingerprint {
            Some(f) => f == acc,
            None => false,
        };
        if same && self.store.contains(id) && st.version.get() > 0 {
            let st = NodeState { status: NodeStatus::Clean, input_fingerprint: Some(acc), ..st };
            self.graph.set_state(id, st)?;
            return Ok(Some(NodeOutcome::Reused));
        }
        let st = NodeState { input_fingerprint: Some(acc), ..st };
        self.graph.set_state(id, st)?;
        Ok(None)
    }
}

impl<V> EngineCore<V> {
    /// One node's turn in a recompute: it is reused by fingerprint, or run
    /// and then clean at its next version, or failed.
    fn run_one(&mut self, id: NodeId, full: bool, hashing: &mut u128, log: &mut Vec<String>) -> (r: Result<NodeOutcome, Error>)
        requires
            old(self).wf(),
            old(self).graph.valid(id),
        ensures
            final(self).wf(),
            forall|x: NodeId| #[trigger] final(self).graph.valid(x) == old(self).graph.valid(x),
            forall|x: NodeId| old(self).graph.valid(x) && x != id ==> #[trigger] final(self).graph.rec(x) == old(self).graph.rec(x),
            r is Ok,
            r is Ok ==> final(self).graph.rec(id).status == NodeStatus::Clean || final(self).graph.rec(id).status == NodeStatus::Failed,
            r matches Ok(NodeOutcome::Reused) <==> old(self).fingerprint_inputs && reusable(old(self).graph, old(self).store@, id),
            r matches Ok(NodeOutcome::Recomputed(_)) ==> exists|v: V| #[trigger] old(self).store@.insert(slot_key(id), v) == final(self).store@,
            !(r matches Ok(NodeOutcome::Recomputed(_))) ==> final(self).store == old(self).store,
            r matches Ok(NodeOutcome::Failed) ==> final(self).graph.rec(id).status == NodeStatus::Failed,
            r matches Ok(NodeOutcome::Reused) ==> final(self).graph.rec(id).status == NodeStatus::Clean,
            !(r matches Ok(NodeOutcome::Recomputed(_))) ==> final(self).graph.rec(id).version == old(self).graph.rec(id).version,
            r matches Ok(NodeOutcome::Recomputed(_)) ==> final(self).graph.rec(id).status == NodeStatus::Clean
                && final(self).graph.rec(id).version.0 == crate::version::bumped(old(self).graph.rec(id).version.0),
            final(self).inputs == old(self).inputs,
            final(self).computed == old(self).computed,
            final(self).invalidation == old(self).invalidation,
            final(self).log_level == old(self).log_level,
            final(self).fingerprint_inputs == old(self).fingerprint_inputs,
            final(self).last_delta == old(self).last_delta,
            final(self).computations == old(self).computations,
            same_identity_edges(final(self).graph.rec(id), old(self).graph.rec(id)),
            r matches Ok(NodeOutcome::Reused) ==> final(self).calls() == old(self).calls(),
            !(r matches Ok(NodeOutcome::Reused)) && old(self).has_computation(id) ==> old(self).handed_once(final(self).calls(), id, full),
            !(r matches Ok(NodeOutcome::Reused)) && !old(self).has_computation(id) ==> final(self).calls() == old(self).calls()
                && final(self).graph.rec(id).status == NodeStatus::Failed,
    {
        let rec = self.graph.node(id)?;
        let deps = copy_ids(&rec.dependencies);
        let name = rec.name.clone();
        if self.fingerprint_inputs {
            match self.try_fingerprint_reuse(id, deps.as_slice(), hashing)? {
                Some(outcome) => {
                    let mut m = name.clone();
                    append_str(&mut m, ": fingerprint reuse");
                    self.note(log, LogLevel::Debug, m);
                    return Ok(outcome);
                },
                None => {},
            }
        }
        let mode = if full { ComputeMode::Full } else { ComputeMode::Incremental };
        let delta = self.delta_for(deps.as_slice());
        let st = self.graph.state(id)?;
        let st = NodeState { status: NodeStatus::Computing, ..st };
        self.graph.set_state(id, st)?;
        let t0 = clock_now();
        let dref = delta.as_ref();
        let ghost pre = *self;
        proof {
            assert(deps@ == old(self).graph.rec(id).dependencies@);
            assert(pre.calls@ == old(self).calls@);
            assert(pre.computations == old(self).computations);
            assert(pre.computed == old(self).computed);
            assert(pre.has_computation(id) == old(self).has_computation(id));
            assert(shown_call(id, deps@, mode, dref, false).delta == old(self).handed(id, mode_for(full), false).delta);
        }
        let computed = self.invoke(id, deps.as_slice(), mode, dref);
        proof {
            if old(self).has_computation(id) {
                let fb = choose|fb: bool| #![trigger pre.calls@.push(shown_call(id, deps@, mode, dref, fb))]
                    self.calls@ == pre.calls@.push(shown_call(id, deps@, mode, dref, fb))
                    && (fb ==> mode == ComputeMode::Incremental);
                assert(shown_call(id, deps@, mode, dref, fb) == old(self).handed(id, mode_for(full), fb));
                assert(old(self).handed(id, mode_for(full), fb) == old(self).handed(id, mode_for(full), fb));
            }
        }
        let elapsed = duration_as_nanos(&clock_elapsed(&t0));
        Ok(self.settle(id, computed, elapsed, name, hashing, log))
    }
}

/// The mode a turn asks for: full when the recompute is a full one.
pub open spec fn mode_for(full: bool) -> ComputeMode {
    if full { ComputeMode::Full } else { ComputeMode::Incremental }
}

/// The record of handing `id` the inputs `deps`, `mode` and `delta`.
pub open spec fn shown_call(id: NodeId, deps: Seq<NodeId>, mode: ComputeMode, delta: Option<&Delta>, fell_back: bool) -> ComputeCall {
    ComputeCall {
        node: id,
        inputs: deps,
        mode,
        delta: match delta {
            Some(d) => Some(d@),
            None => None,
        },
        fell_back,
    }
}

/// What a computation's incremental answer leads to: a value or an error
/// is the answer; a decline (`None`) asks for the full computation.
fn incremental_answer<V>(res: Result<Option<ComputeOutput<V>>, Error>) -> (r: Option<Result<ComputeOutput<V>, Error>>)
    ensures
        match res {
            Ok(Some(out)) => r == Some(Ok::<ComputeOutput<V>, Error>(out)),
            Ok(None) => r is None,
            Err(e) => r == Some(Err::<ComputeOutput<V>, Error>(e)),
        },
{
    match res {
        Ok(Some(out)) => Some(Ok(out)),
        Ok(None) => None,
        Err(e) => Some(Err(e)),
    }
}

/// Whether adding `b` into `a` keeps every counter in range.
fn merge_fits_exec(a: &WorkMetrics, b: &WorkMetrics) -> (r: bool)
    ensures
        r == merge_fits(*a, *b),
{
    a.bytes_processed.checked_add(b.bytes_processed).is_some()
        && a.allocations_hint.checked_add(b.allocations_hint).is_some()
        && a.items_reused.checked_add(b.items_reused).is_some()
        && a.items_recomputed.checked_add(b.items_recomputed).is_some()
        && a.items_invalidated.checked_add(b.items_invalidated).is_some()
        && a.items_total.checked_add(b.items_total).is_some()
        && a.hashing_nanos.0.checked_add(b.hashing_nanos.0).is_some()
}

/// What changing the value of the input `id` does to the graph `before`,
/// leaving `after`, and what it returns: the input is clean at its next
/// version, and the nodes downstream of it are marked for the change as an
/// invalidation in `mode` marks them (none in lazy mode); an eager one that
/// would mark more nodes than the graph's limit is refused.
pub open spec fn input_change_outcome(
    before: Graph,
    after: Graph,
    id: NodeId,
    mode: InvalidationMode,
    r: Result<(InvalidationReport, u128), Error>,
) -> bool {
    let marked = before.invalidation_set(id, false, mode);
    let limit = before.limits_of().max_invalidation_nodes;
    &&& (r is Err <==> (mode == InvalidationMode::Eager && marked.len() > limit))
    &&& r matches Err(e) ==> e.is_limit(msg_invalidation_limit(limit as nat))
    &&& r matches Ok(p) ==> {
        &&& p.0.fanout == marked.len()
        &&& forall|k: int| 0 <= k < p.0.invalidated@.len() ==> marked.contains((#[trigger] p.0.invalidated@[k]).index as int)
        &&& after.valid(id)
        &&& after.rec(id).status == NodeStatus::Clean
        &&& after.rec(id).version.0 == bumped(before.rec(id).version.0)
        &&& forall|x: NodeId| #[trigger] after.valid(x) == before.valid(x)
        &&& forall|x: NodeId| #![trigger after.rec(x)] before.valid(x) && x != id ==> if marked.contains(x.index as int) {
            is_marked(after.rec(x), before.rec(x), InvalidationReason::InputChanged)
        } else {
            after.rec(x) == before.rec(x)
        }
    }
}

/// Nothing is left waiting: no live node is pending or dirty.
pub open spec fn nothing_waits(g: Graph) -> bool {
    forall|x: NodeId| #[trigger] g.valid(x) ==> g.rec(x).status != NodeStatus::Pending && g.rec(x).status != NodeStatus::Dirty
}

impl<V> EngineCore<V> {
    /// Bring every node that needs computing up to date, each after the
    /// nodes it depends on: every derived node, computed in full, when
    /// `full`; else the dirty ones, each incrementally where its computation
    /// can. `decision_label` names the choice in the log, `invalidated` is
    /// the count of nodes that needed computing when the choice was made,
    /// and `started` is when the update began.
    #[verifier::spinoff_prover]
    #[verifier::rlimit(40)]
    pub fn recompute(&mut self, full: bool, decision_label: &str, invalidated: usize, started: &Instant) -> (r: Result<RecomputeCounts, Error>)
        requires
            old(self).wf(),
        ensures
            final(self).wf(),
            final(self).input_ids() == old(self).input_ids(),
            final(self).computed_ids() == old(self).computed_ids(),
            forall|x: NodeId| #[trigger] final(self).graph_view().valid(x) == old(self).graph_view().valid(x),
            r is Ok ==> nothing_waits(final(self).graph_view()),
            !full && (forall|x: NodeId| !#[trigger] dirty_node(old(self).graph_view(), x)) ==> r is Ok,
            !full && old(self).graph_view().dirty_total() > old(self).graph_view().limits_of().max_schedule_nodes ==> (r matches Err(e)
                && e.is_limit(msg_schedule_limit(old(self).graph_view().dirty_total(), old(self).graph_view().limits_of().max_schedule_nodes as nat))),
            r matches Err(e) && e.is_limit("work counters overflow"@) ==> exists|x: NodeId| #[trigger] final(self).graph_view().valid(x)
                && final(self).graph_view().rec(x).status == NodeStatus::Clean
                && final(self).graph_view().rec(x).version.0 == crate::version::bumped(old(self).graph_view().rec(x).version.0),
            !full && old(self).graph_view().dirty_total() <= old(self).graph_view().limits_of().max_schedule_nodes ==> (r matches Err(e)
                ==> e.is_limit("work counters overflow"@)),
            r matches Err(e) ==> e.is_limit("work counters overflow"@)
                || exists|n: nat| n > old(self).graph_view().limits_of().max_schedule_nodes
                    && e.is_limit(#[trigger] msg_schedule_limit(n, old(self).graph_view().limits_of().max_schedule_nodes as nat)),
            final(self).calls().len() >= old(self).calls().len(),
            final(self).calls().subrange(0, old(self).calls().len() as int) == old(self).calls(),
            r matches Ok(c) ==> run_explained(*old(self), *final(self), full, c),
            r matches Ok(c) ==> {
                &&& c.invalidated_nodes == invalidated
                &&& c.total_nodes == final(self).graph_view().live_total()
                &&& c.dirty_nodes == final(self).graph_view().status_total(|s: NodeStatus| dirty_or_running(s))
                &&& c.dependency_edges == final(self).graph_view().edge_total()
                &&& is_max_depth(final(self).graph_view(), c.max_dependency_depth as nat)
            },
    {
        let ghost quiet = !full && forall|x: NodeId| !#[trigger] dirty_node(old(self).graph_view(), x);
        let mut log: Vec<String> = Vec::new();
        let mut m = owned("decision=");
        append_str(&mut m, decision_label);
        self.note(&mut log, LogLevel::Normal, m);
        if full {
            let _ = self.mark_all_computed_dirty();
        }
        proof {
            if !full && forall|x: NodeId| !#[trigger] dirty_node(old(self).graph, x) {
                lemma_no_dirty_node(self.graph);
            }
        }
        let scheduled = self.graph.schedule_dirty();
        let schedule = match scheduled {
            Ok(s) => {
                proof {
                    if !full {
                        assert(self.graph == old(self).graph);
                        if (forall|x: NodeId| !#[trigger] dirty_node(old(self).graph, x)) && s.order@.len() > 0 {
                            assert(is_ready(self.graph, s.order@.take(0), s.order@[0]));
                        }
                    }
                }
                s
            },
            Err(e) => {
                proof {
                    let n = self.graph.dirty_total();
                    assert(self.graph.limits_of() == old(self).graph.limits_of());
                    assert(n > old(self).graph_view().limits_of().max_schedule_nodes);
                    assert(e.is_limit(msg_schedule_limit(n, old(self).graph_view().limits_of().max_schedule_nodes as nat)));
                    reveal_strlit("schedule size ");
                    reveal_strlit("work counters overflow");
                    assert(!e.is_limit("work counters overflow"@)) by {
                        let m = msg_schedule_limit(n, old(self).graph_view().limits_of().max_schedule_nodes as nat);
                        assert(m[0] == 's');
                        assert("work counters overflow"@[0] == 'w');
                    }
                }
                return Err(e);
            },
        };
        let order = copy_ids(&schedule.order);
        let mut m = owned("schedule ");
        append_decimal(&mut m, order.len() as u128);
        append_str(&mut m, " nodes");
        self.note(&mut log, LogLevel::Verbose, m);
        let ghost g = self.graph;
        proof {
            assert forall|x: NodeId| #[trigger] self.graph.valid(x) && (self.graph.rec(x).status == NodeStatus::Pending || self.graph.rec(x).status == NodeStatus::Dirty)
                implies exists|j: int| 0 <= j < order@.len() && order@[j] == x by {
                assert(dirty_node(g, x));
                assert(order@.contains(x));
            }
        }
        let mut work = WorkMetrics::zero();
        let ghost mut first: Option<NodeId> = None;
        proof {
            assert(self.calls@.subrange(0, old(self).calls@.len() as int) =~= old(self).calls@);
            assert(self.calls@.subrange(old(self).calls@.len() as int, self.calls@.len() as int) =~= Seq::<ComputeCall>::empty());
            if full {
                assert forall|x: NodeId| old(self).graph.valid(x) && !old(self).inputs@.contains(x) implies #[trigger] order@.contains(x) by {
                    assert(dirty_node(g, x));
                }
            }
            assert forall|x: NodeId| #[trigger] self.graph.valid(x) implies self.graph.rec(x).dependencies == old(self).graph.rec(x).dependencies by {
                if full {
                    assert(same_identity_edges(self.graph.rec(x), old(self).graph.rec(x)));
                }
            }
            assert(order@.take(0) =~= Seq::<NodeId>::empty());
            if !full {
                assert(g == old(self).graph);
            }
        }
        let mut hashing: u128 = 0;
        let mut recomputed: usize = 0;
        let mut reused_skip: usize = 0;
        let mut failed: usize = 0;
        let mut i: usize = 0;
        let ghost mut works: Seq<Option<WorkMetrics>> = Seq::empty();
        while i < order.len()
            invariant
                self.wf(),
                i <= order@.len(),
                works.len() == i,
                recomputed == recomputed_count(works),
                work == work_sum(works),
                failed == failed_count(self.graph, order@.take(i as int)),
                forall|k: int| 0 <= k < i && #[trigger] works[k] is Some ==> {
                    &&& self.graph.rec(order@[k]).status == NodeStatus::Clean
                    &&& self.graph.rec(order@[k]).version.0 == bumped(old(self).graph.rec(order@[k]).version.0)
                },
                forall|k: int| 0 <= k < i && #[trigger] works[k] is None ==> self.graph.rec(order@[k]).version
                    == old(self).graph.rec(order@[k]).version,
                !full ==> g == old(self).graph,
                full ==> forall|x: NodeId| old(self).graph.valid(x) && !old(self).inputs@.contains(x) ==> #[trigger] order@.contains(x),
                forall|x: NodeId| #[trigger] self.graph.valid(x) ==> self.graph.rec(x).dependencies == old(self).graph.rec(x).dependencies,
                self.last_delta == old(self).last_delta,
                self.fingerprint_inputs == old(self).fingerprint_inputs,
                self.calls@.len() >= old(self).calls@.len(),
                self.calls@.subrange(0, old(self).calls@.len() as int) == old(self).calls@,
                turns_handed(*old(self), self.calls@.subrange(old(self).calls@.len() as int, self.calls@.len() as int), full, order@, works),
                forall|k: int| 0 <= k < i && #[trigger] works[k] is None && self.graph.rec(order@[k]).status != NodeStatus::Failed
                    ==> old(self).fingerprint_inputs,
                is_dirty_schedule(g, order@),
                forall|x: NodeId| #[trigger] self.graph.valid(x) == g.valid(x),
                forall|x: NodeId| #[trigger] self.graph.valid(x) && (self.graph.rec(x).status == NodeStatus::Pending || self.graph.rec(x).status == NodeStatus::Dirty)
                    ==> exists|j: int| i <= j < order@.len() && order@[j] == x,
                recomputed + reused_skip + failed == i,
                self.inputs == old(self).inputs,
                self.computed == old(self).computed,
                forall|x: NodeId| #[trigger] g.valid(x) == old(self).graph.valid(x),
                !full ==> old(self).graph.dirty_total() <= old(self).graph.limits_of().max_schedule_nodes,
                quiet == (!full && forall|x: NodeId| !#[trigger] dirty_node(old(self).graph_view(), x)),
                quiet ==> order@.len() == 0,
                forall|x: NodeId| g.valid(x) ==> (#[trigger] g.rec(x)).version == old(self).graph.rec(x).version,
                forall|x: NodeId| self.graph.valid(x) && !order@.take(i as int).contains(x) ==> #[trigger] self.graph.rec(x) == g.rec(x),
                recomputed == 0 ==> work == zero_work(),
                recomputed > 0 ==> (first matches Some(x) && self.graph.valid(x)
                    && self.graph.rec(x).status == NodeStatus::Clean
                    && self.graph.rec(x).version.0 == crate::version::bumped(old(self).graph.rec(x).version.0)
                    && order@.take(i as int).contains(x)),
            decreases order@.len() - i,
        {
            let id = order[i];
            proof {
                assert(is_ready(g, order@.take(i as int), order@[i as int]));
                assert(order@.take(i + 1) =~= order@.take(i as int).push(id));
            }
            let ghost before = self.graph;
            let ghost rec0 = recomputed;
            let ghost first0 = first;
            proof {
                assert(!order@.take(i as int).contains(id));
                assert(order@.take(i + 1)[i as int] == id);
                assert(g.valid(id));
                assert(before.rec(id) == g.rec(id));
                if rec0 > 0 {
                    let x0 = first0->Some_0;
                    assert(x0 != id);
                }
            }
            let ghost pre = *self;
            let ghost works0 = works;
            let outcome = self.run_one(id, full, &mut hashing, &mut log)?;
            let ghost was_reused = outcome is Reused;
            let ghost was_recomputed = outcome is Recomputed;
            let ghost was_failed = outcome is Failed;
            proof {
                lemma_handed_same(pre, *old(self), id, full);
                if was_recomputed {
                    assert(pre.has_computation(id));
                }
            }
            match outcome {
                NodeOutcome::Recomputed(w) => {
                    if !merge_fits_exec(&work, &w) {
                        proof {
                            assert(rec0 > 0);
                            let x0 = first0->Some_0;
                            assert(self.graph.rec(x0) == before.rec(x0));
                            assert(self.graph_view().valid(x0));
                        }
                        return Err(Error::Limit(owned("work counters overflow")));
                    }
                    let ghost w0 = work;
                    work.merge(&w);
                    proof {
                        if recomputed == 0 {
                            first = Some(id);
                        }
                        assert(work == work_added(w0, w));
                        let nw = works.push(Some(w));
                        assert(nw.drop_last() =~= works);
                        works = nw;
                    }
                    recomputed = recomputed + 1;
                },
                NodeOutcome::Reused => {
                    proof {
                        let nw = works.push(None);
                        assert(nw.drop_last() =~= works);
                        works = nw;
                    }
                    reused_skip = reused_skip + 1;
                },
                NodeOutcome::Failed => {
                    proof {
                        let nw = works.push(None);
                        assert(nw.drop_last() =~= works);
                        works = nw;
                    }
                    failed = failed + 1;
                },
            }
            proof {
                let pre = order@.take(i as int);
                let pre1 = order@.take(i + 1);
                assert(pre1.drop_last() =~= pre);
                assert forall|k: int| 0 <= k < pre.len() implies before.rec(#[trigger] pre[k]) == self.graph.rec(pre[k]) by {
                    assert(pre[k] != id);
                    assert(before.valid(pre[k]));
                }
                lemma_failed_count_frame(before, self.graph, pre);
                assert(pre1.last() == id);
                assert forall|k: int| 0 <= k < i + 1 && #[trigger] works[k] is None implies self.graph.rec(order@[k]).version
                    == old(self).graph.rec(order@[k]).version by {
                    if k < i {
                        assert(order@[k] == pre[k]);
                        assert(order@[k] != id);
                        assert(before.valid(order@[k]));
                    }
                }
                assert forall|k: int| 0 <= k < i + 1 && #[trigger] works[k] is Some implies {
                    &&& self.graph.rec(order@[k]).status == NodeStatus::Clean
                    &&& self.graph.rec(order@[k]).version.0 == bumped(old(self).graph.rec(order@[k]).version.0)
                } by {
                    if k < i {
                        assert(order@[k] == pre[k]);
                        assert(order@[k] != id);
                        assert(before.valid(order@[k]));
                    }
                }
            }
            proof {
                let hd = !was_reused && pre.has_computation(id);
                if hd {
                    let fb = choose|fb: bool| #![trigger pre.handed(id, mode_for(full), fb)]
                        self.calls() == pre.calls().push(pre.handed(id, mode_for(full), fb)) && (fb ==> !full);
                    assert(pre.handed(id, mode_for(full), fb) == old(self).handed(id, mode_for(full), fb));
                    lemma_calls_step(*old(self), pre.calls@, self.calls@, full, order@, works0, works.last(), i as int, true, fb);
                } else {
                    lemma_calls_step(*old(self), pre.calls@, self.calls@, full, order@, works0, works.last(), i as int, false, false);
                }
                assert(works =~= works0.push(works.last()));
                assert forall|k: int| 0 <= k < i + 1 && #[trigger] works[k] is None && self.graph.rec(order@[k]).status != NodeStatus::Failed
                    implies old(self).fingerprint_inputs by {
                    if k < i {
                        assert(works[k] == works0[k]);
                        assert(order@[k] != id) by {
                            assert(order@.take(i as int)[k] == order@[k]);
                        }
                        assert(before.valid(order@[k]));
                        assert(self.graph.rec(order@[k]) == before.rec(order@[k]));
                    } else {
                        assert(was_reused);
                    }
                }
                assert forall|x: NodeId| #[trigger] self.graph.valid(x) implies self.graph.rec(x).dependencies == old(self).graph.rec(x).dependencies by {
                    assert(before.valid(x));
                    if x != id {
                        assert(self.graph.rec(x) == before.rec(x));
                    }
                }
                assert forall|x: NodeId| self.graph.valid(x) && !order@.take(i + 1).contains(x) implies #[trigger] self.graph.rec(x) == g.rec(x) by {
                    if x == id {
                        assert(order@.take(i + 1).contains(id));
                    }
                    assert(!order@.take(i as int).contains(x)) by {
                        if order@.take(i as int).contains(x) {
                            let j = choose|j: int| 0 <= j < i && order@.take(i as int)[j] == x;
                            assert(order@.take(i + 1)[j] == x);
                        }
                    }
                }
                if rec0 > 0 {
                    let x0 = first0->Some_0;
                    assert(first == first0);
                    assert(self.graph.rec(x0) == before.rec(x0));
                    assert(order@.take(i + 1).contains(x0)) by {
                        let j = choose|j: int| 0 <= j < i && order@.take(i as int)[j] == x0;
                        assert(order@.take(i + 1)[j] == x0);
                    }
                } else if recomputed > 0 {
                    assert(first == Some(id));
                    assert(order@.take(i + 1).contains(id));
                }
                assert forall|x: NodeId| #[trigger] self.graph.valid(x) && (self.graph.rec(x).status == NodeStatus::Pending || self.graph.rec(x).status == NodeStatus::Dirty)
                    implies exists|j: int| i + 1 <= j < order@.len() && order@[j] == x by {
                    assert(x != id);
                    assert(before.valid(x));
                    assert(before.rec(x) == self.graph.rec(x));
                    let j = choose|j: int| i <= j < order@.len() && order@[j] == x;
                    assert(j != i);
                }
            }
            i = i + 1;
        }
        proof {
            assert forall|x: NodeId| #[trigger] self.graph.valid(x) implies self.graph.rec(x).status != NodeStatus::Pending
                && self.graph.rec(x).status != NodeStatus::Dirty by {
                if self.graph.rec(x).status == NodeStatus::Pending || self.graph.rec(x).status == NodeStatus::Dirty {
                    let j = choose|j: int| i <= j < order@.len() && order@[j] == x;
                }
            }
        }
        let stats = self.graph.stats();
        let clean = stats.clean_nodes;
        proof {
            assert(order@.take(i as int) =~= order@);
        }
        let taken = if recomputed < clean { recomputed } else { clean };
        let reused = (clean - taken).saturating_add(reused_skip);
        let execution_nanos = duration_as_nanos(&clock_elapsed(started));
        let counts = RecomputeCounts {
            invalidated_nodes: invalidated,
            recomputed_nodes: recomputed,
            reused_nodes: reused,
            dirty_nodes: stats.dirty_nodes,
            total_nodes: stats.total_nodes,
            failed_nodes: failed,
            dependency_edges: stats.dependency_edges,
            max_dependency_depth: stats.max_dependency_depth,
            execution_nanos,
            hashing_nanos: hashing,
            work,
            log,
        };
        proof {
            assert(run_record(old(self).graph_view(), self.graph_view(), order@, works, counts));
            if !full {
                assert(g == old(self).graph);
                assert(is_dirty_schedule(old(self).graph_view(), order@));
            }
            assert(run_explained(*old(self), *self, full, counts));
        }
        Ok(counts)
    }

    /// Forget every node, value and computation; the settings stay.
    pub fn reset(&mut self)
        ensures
            final(self).wf(),
            final(self).graph_view().live_total() == 0,
            final(self).values() == Map::<u64, V>::empty(),
            final(self).input_ids().len() == 0,
            final(self).computed_ids().len() == 0,
            final(self).delta_source() is None,
            final(self).invalidation_mode() == old(self).invalidation_mode(),
            final(self).level() == old(self).level(),
            final(self).uses_fingerprints() == old(self).uses_fingerprints(),
    {
        self.graph = Graph::new();
        self.store.clear();
        self.computations = Vec::new();
        self.computed = Vec::new();
        self.inputs = Vec::new();
        self.last_delta = None;
    }
}

} // verus!
