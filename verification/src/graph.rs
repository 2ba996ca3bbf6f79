use vstd::prelude::*;
use std::collections::BTreeMap;
use crate::error::Error;
use crate::fingerprint::Fingerprint;
use crate::id::NodeId;
use crate::status::{InvalidationReason, NodeStatus};
use crate::text::{append_decimal, decimal, owned, append_str};
use crate::version::Version;
use crate::invalidate::{InvalidationMode, InvalidationReport, mode_label};
use crate::topo::Schedule;
use crate::stats::GraphStats;
use crate::text::hex_fixed;
use vstd::set_lib::{lemma_int_range, lemma_len_subset, set_int_range};

verus! {

/// Size limits of a graph.
#[derive(Clone, Copy, Debug, PartialEq, Eq, Structural)]
pub struct GraphLimits {
    pub max_nodes: usize,
    pub max_edges: usize,
    pub max_invalidation_nodes: usize,
    pub max_schedule_nodes: usize,
}

impl Default for GraphLimits {
    fn default() -> (l: GraphLimits)
        ensures
            l.max_nodes == 100_000,
            l.max_edges == 1_000_000,
            l.max_invalidation_nodes == 100_000,
            l.max_schedule_nodes == 100_000,
    {
        GraphLimits {
            max_nodes: 100_000,
            max_edges: 1_000_000,
            max_invalidation_nodes: 100_000,
            max_schedule_nodes: 100_000,
        }
    }
}

/// Everything the graph knows of one computation node.
#[derive(Debug)]
pub struct NodeRecord {
    pub id: NodeId,
    pub name: String,
    pub kind: String,
    pub status: NodeStatus,
    pub version: Version,
    pub input_fingerprint: Option<Fingerprint>,
    pub output_fingerprint: Option<Fingerprint>,
    /// Upstream nodes, ascending by index.
    pub dependencies: Vec<NodeId>,
    /// Downstream nodes, ascending by index.
    pub dependents: Vec<NodeId>,
    pub last_invalidation: Option<InvalidationReason>,
    pub last_compute_nanos: u128,
    pub last_recompute_count: u64,
    pub metadata: BTreeMap<String, String>,
}

/// Two records that agree on everything but their edge lists.
pub open spec fn same_payload(a: NodeRecord, b: NodeRecord) -> bool {
    &&& a.id == b.id
    &&& a.name == b.name
    &&& a.kind == b.kind
    &&& a.status == b.status
    &&& a.version == b.version
    &&& a.input_fingerprint == b.input_fingerprint
    &&& a.output_fingerprint == b.output_fingerprint
    &&& a.last_invalidation == b.last_invalidation
    &&& a.last_compute_nanos == b.last_compute_nanos
    &&& a.last_recompute_count == b.last_recompute_count
    &&& a.metadata == b.metadata
}

/// Ids in strictly increasing index order (so no index twice).
pub open spec fn ascending(s: Seq<NodeId>) -> bool {
    forall|a: int, b: int| 0 <= a < b < s.len() ==> (#[trigger] s[a]).index < (#[trigger] s[b]).index
}

struct Slot {
    generation: u32,
    live: bool,
    data: Option<NodeRecord>,
}

spec fn count_live(s: Seq<Slot>) -> nat
    decreases s.len(),
{
    if s.len() == 0 {
        0
    } else {
        count_live(s.drop_last()) + (if s.last().live { 1nat } else { 0nat })
    }
}

spec fn deps_len(sl: Slot) -> nat {
    if sl.live && sl.data is Some {
        sl.data.unwrap().dependencies@.len()
    } else {
        0
    }
}

spec fn sum_deps(s: Seq<Slot>) -> nat
    decreases s.len(),
{
    if s.len() == 0 {
        0
    } else {
        sum_deps(s.drop_last()) + deps_len(s.last())
    }
}

proof fn lemma_count_live_update(s: Seq<Slot>, i: int, x: Slot)
    requires
        0 <= i < s.len(),
    ensures
        count_live(s.update(i, x)) + (if s[i].live { 1nat } else { 0nat })
            == count_live(s) + (if x.live { 1nat } else { 0nat }),
        sum_deps(s.update(i, x)) + deps_len(s[i]) == sum_deps(s) + deps_len(x),
    decreases s.len(),
{
    if i == s.len() - 1 {
        assert(s.update(i, x).drop_last() =~= s.drop_last());
    } else {
        lemma_count_live_update(s.drop_last(), i, x);
        assert(s.update(i, x).drop_last() =~= s.drop_last().update(i, x));
    }
}

proof fn lemma_count_live_push(s: Seq<Slot>, x: Slot)
    ensures
        count_live(s.push(x)) == count_live(s) + (if x.live { 1nat } else { 0nat }),
        sum_deps(s.push(x)) == sum_deps(s) + deps_len(x),
{
    assert(s.push(x).drop_last() =~= s);
}

proof fn lemma_count_live_bound(s: Seq<Slot>)
    ensures
        count_live(s) <= s.len(),
    decreases s.len(),
{
    if s.len() > 0 {
        lemma_count_live_bound(s.drop_last());
    }
}

/// Message of a graph that is full.
pub open spec fn msg_node_limit(live: nat, max: nat) -> Seq<char> {
    "node count "@ + decimal(live) + " exceeds "@ + decimal(max)
}

/// Explicit dependency graph. Every node knows its upstream dependencies and
/// its downstream dependents. Removed slots are reused with a new generation,
/// so an id of a removed node stays stale.
pub struct Graph {
    slots: Vec<Slot>,
    free: Vec<u32>,
    limits: GraphLimits,
    edge_count: usize,
    rank: Ghost<Map<int, nat>>,
}

impl Graph {
    /// Number of slots, live or free.
    pub closed spec fn slot_count(&self) -> nat {
        self.slots@.len()
    }

    spec fn live_at(&self, i: int) -> bool {
        0 <= i < self.slots@.len() && self.slots@[i].live
    }

    spec fn rec_at(&self, i: int) -> NodeRecord {
        self.slots@[i].data.unwrap()
    }

    /// The current generation of slot `i`.
    pub closed spec fn generation_at(&self, i: int) -> u32 {
        self.slots@[i].generation
    }

    /// Whether `id` names a live node of this graph.
    pub closed spec fn valid(&self, id: NodeId) -> bool {
        self.live_at(id.index as int) && self.slots@[id.index as int].generation == id.generation
    }

    /// The record of a valid id.
    pub closed spec fn rec(&self, id: NodeId) -> NodeRecord {
        self.rec_at(id.index as int)
    }

    /// The error of looking up an id that is not valid.
    pub closed spec fn lookup_error(&self, id: NodeId) -> Error {
        if id.index >= self.slots@.len() {
            Error::UnknownNode(id)
        } else {
            Error::StaleNode(id)
        }
    }

    /// Slots of removed nodes, the last one reused first.
    pub closed spec fn free_list(&self) -> Seq<u32> {
        self.free@
    }

    pub closed spec fn limits_of(&self) -> GraphLimits {
        self.limits
    }

    /// The dependency edge counter.
    pub closed spec fn edge_total(&self) -> nat {
        self.edge_count as nat
    }

    /// Number of live nodes.
    pub closed spec fn live_total(&self) -> nat {
        count_live(self.slots@)
    }

    /// `j` depends on `i`: data flows from `i` to `j`.
    pub closed spec fn succ(&self, i: int, j: int) -> bool {
        &&& self.live_at(i)
        &&& self.live_at(j)
        &&& self.rec_at(i).dependents@.contains(self.rec_at(j).id)
    }

    spec fn wf_slots(&self) -> bool {
        &&& self.slots@.len() <= u32::MAX
        &&& forall|i: int| 0 <= i < self.slots@.len() ==> (#[trigger] self.slots@[i]).live == (self.slots@[i].data is Some)
        &&& forall|i: int| #[trigger] self.live_at(i) ==> self.rec_at(i).id == NodeId { index: i as u32, generation: self.slots@[i].generation }
        &&& forall|k: int| 0 <= k < self.free@.len() ==> (#[trigger] self.free@[k]) < self.slots@.len() && !self.slots@[self.free@[k] as int].live
        &&& forall|a: int, b: int| 0 <= a < b < self.free@.len() ==> self.free@[a] != self.free@[b]
        &&& count_live(self.slots@) <= self.limits.max_nodes
        &&& sum_deps(self.slots@) == self.edge_count
    }

    spec fn wf_links(&self) -> bool {
        &&& forall|i: int| #[trigger] self.live_at(i) ==> ascending(self.rec_at(i).dependencies@) && ascending(self.rec_at(i).dependents@)
        &&& forall|i: int, k: int| #[trigger] self.live_at(i) && 0 <= k < self.rec_at(i).dependencies@.len() ==> {
            let d = #[trigger] self.rec_at(i).dependencies@[k];
            &&& self.valid(d)
            &&& self.rec(d).dependents@.contains(self.rec_at(i).id)
            &&& self.rank@[d.index as int] < self.rank@[i]
        }
        &&& forall|j: int, k: int| #[trigger] self.live_at(j) && 0 <= k < self.rec_at(j).dependents@.len() ==> {
            let u = #[trigger] self.rec_at(j).dependents@[k];
            &&& self.valid(u)
            &&& self.rec(u).dependencies@.contains(self.rec_at(j).id)
        }
    }

    /// Internal consistency: slots, free list, counters, symmetric edge lists,
    /// and a ranking under which every dependency ranks below its dependent
    /// (so the graph has no cycle).
    pub closed spec fn wf(&self) -> bool {
        self.wf_slots() && self.wf_links()
    }

    pub fn new() -> (g: Graph)
        ensures
            g.wf(),
            g.slot_count() == 0,
            g.free_list().len() == 0,
            g.live_total() == 0,
            g.edge_total() == 0,
            g.limits_of().max_nodes == 100_000,
            g.limits_of().max_edges == 1_000_000,
            g.limits_of().max_invalidation_nodes == 100_000,
            g.limits_of().max_schedule_nodes == 100_000,
    {
        Graph {
            slots: Vec::new(),
            free: Vec::new(),
            limits: GraphLimits::default(),
            edge_count: 0,
            rank: Ghost(Map::empty()),
        }
    }

    pub fn with_limits(limits: GraphLimits) -> (g: Graph)
        ensures
            g.wf(),
            g.slot_count() == 0,
            g.free_list().len() == 0,
            g.live_total() == 0,
            g.edge_total() == 0,
            g.limits_of() == limits,
    {
        Graph { slots: Vec::new(), free: Vec::new(), limits, edge_count: 0, rank: Ghost(Map::empty()) }
    }

    pub fn limits(&self) -> (l: &GraphLimits)
        ensures
            *l == self.limits_of(),
    {
        &self.limits
    }

    fn check(&self, id: NodeId) -> (r: Result<(), Error>)
        requires
            self.wf(),
        ensures
            r is Ok <==> self.valid(id),
            r matches Err(e) ==> e == self.lookup_error(id),
    {
        let i = id.index as usize;
        if i >= self.slots.len() {
            return Err(Error::UnknownNode(id));
        }
        if !self.slots[i].live || self.slots[i].generation != id.generation {
            return Err(Error::StaleNode(id));
        }
        Ok(())
    }

    /// Number of slots, live or free.
    pub fn slot_total(&self) -> (n: usize)
        ensures
            n == self.slot_count(),
    {
        self.slots.len()
    }

    /// The record of a live node.
    pub fn node(&self, id: NodeId) -> (r: Result<&NodeRecord, Error>)
        requires
            self.wf(),
        ensures
            r is Ok <==> self.valid(id),
            r matches Ok(rec) ==> *rec == self.rec(id),
            r matches Err(e) ==> e == self.lookup_error(id),
    {
        self.check(id)?;
        let i = id.index as usize;
        match &self.slots[i].data {
            Some(rec) => Ok(rec),
            None => Err(Error::UnknownNode(id)),
        }
    }

    /// Ids of the live nodes, ascending by index.
    pub fn live_ids(&self) -> (ids: Vec<NodeId>)
        requires
            self.wf(),
        ensures
            ascending(ids@),
            forall|k: int| 0 <= k < ids@.len() ==> self.valid(#[trigger] ids@[k]),
            forall|id: NodeId| self.valid(id) ==> ids@.contains(id),
            ids@.len() == self.live_total(),
    {
        let mut ids: Vec<NodeId> = Vec::new();
        let mut i: usize = 0;
        while i < self.slots.len()
            invariant
                self.wf(),
                i <= self.slots@.len(),
                ids@.len() == count_live(self.slots@.subrange(0, i as int)),
                ascending(ids@),
                forall|k: int| 0 <= k < ids@.len() ==> self.valid(#[trigger] ids@[k]) && ids@[k].index < i,
                forall|id: NodeId| self.valid(id) && id.index < i ==> ids@.contains(id),
            decreases self.slots@.len() - i,
        {
            proof {
                assert(self.slots@.subrange(0, i + 1).drop_last() =~= self.slots@.subrange(0, i as int));
            }
            if self.slots[i].live {
                let id = NodeId::new(i as u32, self.slots[i].generation);
                assert(self.live_at(i as int));
                let ghost before = ids@;
                ids.push(id);
                assert forall|x: NodeId| self.valid(x) && x.index < i + 1 implies ids@.contains(x) by {
                    if x.index == i {
                        assert(ids@[ids@.len() - 1] == x);
                    } else {
                        let k = choose|k: int| 0 <= k < before.len() && before[k] == x;
                        assert(ids@[k] == x);
                    }
                }
            }
            i = i + 1;
        }
        assert(self.slots@.subrange(0, i as int) =~= self.slots@);
        ids
    }

    /// Number of live nodes.
    pub fn live_count(&self) -> (n: usize)
        requires
            self.wf(),
        ensures
            n == self.live_total(),
    {
        let mut n: usize = 0;
        let mut i: usize = 0;
        while i < self.slots.len()
            invariant
                i <= self.slots@.len(),
                n == count_live(self.slots@.subrange(0, i as int)),
                count_live(self.slots@) <= usize::MAX,
                self.wf(),
            decreases self.slots@.len() - i,
        {
            proof {
                assert(self.slots@.subrange(0, i + 1).drop_last() =~= self.slots@.subrange(0, i as int));
                lemma_count_live_prefix(self.slots@, i + 1);
            }
            if self.slots[i].live {
                n = n + 1;
            }
            i = i + 1;
        }
        assert(self.slots@.subrange(0, i as int) =~= self.slots@);
        n
    }
}

/// A record just inserted: pending, never computed, no edges, no metadata.
pub open spec fn is_fresh_record(rec: NodeRecord, id: NodeId, name: Seq<char>, kind: Seq<char>) -> bool {
    &&& rec.id == id
    &&& rec.name@ == name
    &&& rec.kind@ == kind
    &&& rec.status == NodeStatus::Pending
    &&& rec.version.0 == 0
    &&& rec.input_fingerprint is None
    &&& rec.output_fingerprint is None
    &&& rec.dependencies@.len() == 0
    &&& rec.dependents@.len() == 0
    &&& rec.last_invalidation is None
    &&& rec.last_compute_nanos == 0
    &&& rec.last_recompute_count == 0
    &&& rec.metadata@ == Map::<String, String>::empty()
}

fn fresh_record(id: NodeId, name: &str, kind: &str) -> (rec: NodeRecord)
    ensures
        is_fresh_record(rec, id, name@, kind@),
{
    NodeRecord {
        id,
        name: name.to_owned(),
        kind: kind.to_owned(),
        status: NodeStatus::Pending,
        version: Version::never(),
        input_fingerprint: None,
        output_fingerprint: None,
        dependencies: Vec::new(),
        dependents: Vec::new(),
        last_invalidation: None,
        last_compute_nanos: 0,
        last_recompute_count: 0,
        metadata: BTreeMap::new(),
    }
}

impl Graph {
    /// The id the next successful insert hands out: the last free slot with
    /// its next generation, else a new slot with generation 1. A free slot
    /// whose generation cannot grow any more is retired instead of reused,
    /// so that no id is ever handed out twice.
    pub closed spec fn next_id(&self) -> NodeId {
        if self.free@.len() > 0 && self.slots@[self.free@.last() as int].generation < u32::MAX {
            let i = self.free@.last();
            NodeId { index: i, generation: (self.slots@[i as int].generation + 1) as u32 }
        } else {
            NodeId { index: self.slots@.len() as u32, generation: 1 }
        }
    }

    /// Register a node. Refused with a limit error when the graph already
    /// holds its maximum number of nodes.
    pub fn insert(&mut self, name: &str, kind: &str) -> (r: Result<NodeId, Error>)
        requires
            old(self).wf(),
            old(self).slot_count() < u32::MAX,
        ensures
            final(self).wf(),
            r is Ok <==> old(self).live_total() < old(self).limits_of().max_nodes,
            r matches Err(e) ==> e.is_limit(msg_node_limit(old(self).live_total(), old(self).limits_of().max_nodes as nat))
                && *final(self) == *old(self),
            r matches Ok(id) ==> {
                &&& id == old(self).next_id()
                &&& final(self).valid(id)
                &&& is_fresh_record(final(self).rec(id), id, name@, kind@)
                &&& forall|x: NodeId| x.index != id.index ==> (#[trigger] final(self).valid(x)) == old(self).valid(x)
                    && (old(self).valid(x) ==> final(self).rec(x) == old(self).rec(x))
                &&& forall|x: NodeId| x.index == id.index ==> (#[trigger] final(self).valid(x) <==> x == id)
                &&& final(self).live_total() == old(self).live_total() + 1
                &&& final(self).edge_total() == old(self).edge_total()
                &&& final(self).limits_of() == old(self).limits_of()
                &&& final(self).slot_count() <= old(self).slot_count() + 1
                &&& final(self).free_list() == (if old(self).free_list().len() > 0 {
                        old(self).free_list().drop_last()
                    } else {
                        old(self).free_list()
                    })
            },
    {
        let live = self.live_count();
        if live >= self.limits.max_nodes {
            let mut m = owned("node count ");
            append_decimal(&mut m, live as u128);
            append_str(&mut m, " exceeds ");
            append_decimal(&mut m, self.limits.max_nodes as u128);
            assert(m@ =~= msg_node_limit(live as nat, self.limits.max_nodes as nat));
            return Err(Error::Limit(m));
        }
        let ghost old_slots = self.slots@;
        let ghost old_free = self.free@;
        let ghost old_g = *self;
        let retire = self.free.len() > 0 && self.slots[self.free[self.free.len() - 1] as usize].generation == u32::MAX;
        if retire {
            let _ = self.free.pop();
            proof {
                assert forall|a: int, b: int| 0 <= a < b < self.free@.len() implies self.free@[a] != self.free@[b] by {
                    assert(old_free[a] == self.free@[a] && old_free[b] == self.free@[b]);
                }
            }
        }
        if !retire && self.free.len() > 0 {
            let index = self.free.pop().unwrap();
            assert(old_free[old_free.len() - 1] == index);
            let g = self.slots[index as usize].generation;
            let ng = g + 1;
            let id = NodeId::new(index, ng);
            let rec = fresh_record(id, name, kind);
            let slot = Slot { generation: ng, live: true, data: Some(rec) };
            proof {
                lemma_count_live_update(old_slots, index as int, slot);
            }
            self.slots.set(index as usize, slot);
            proof {
                assert forall|k: int| 0 <= k < self.free@.len() implies (#[trigger] self.free@[k]) < self.slots@.len()
                    && !self.slots@[self.free@[k] as int].live by {
                    assert(old_free[k] == self.free@[k]);
                    assert(old_free[k] != old_free[old_free.len() - 1]);
                }
                assert forall|a: int, b: int| 0 <= a < b < self.free@.len() implies self.free@[a] != self.free@[b] by {
                    assert(old_free[a] == self.free@[a] && old_free[b] == self.free@[b]);
                }
                Self::lemma_links_after_fresh(old_g, *self, index as int);
                assert(deps_len(old_slots[index as int]) == 0);
                assert forall|i: int| #[trigger] self.live_at(i) implies self.rec_at(i).id == (NodeId { index: i as u32, generation: self.slots@[i].generation }) by {
                    if i != index { assert(old_g.live_at(i)); }
                }
                assert(self.wf_slots());
            }
            Ok(id)
        } else {
            let index = self.slots.len() as u32;
            let id = NodeId::new(index, 1);
            let rec = fresh_record(id, name, kind);
            let slot = Slot { generation: 1, live: true, data: Some(rec) };
            proof {
                lemma_count_live_push(old_slots, slot);
            }
            self.slots.push(slot);
            proof {
                Self::lemma_links_after_fresh(old_g, *self, index as int);
                assert forall|i: int| #[trigger] self.live_at(i) implies self.rec_at(i).id == (NodeId { index: i as u32, generation: self.slots@[i].generation }) by {
                    if i != index { assert(old_g.live_at(i)); }
                }
                assert forall|k: int| 0 <= k < self.free@.len() implies (#[trigger] self.free@[k]) < self.slots@.len()
                    && !self.slots@[self.free@[k] as int].live by {
                    assert(self.free@[k] == old_g.free@[k]);
                    assert(old_g.free@[k] < old_g.slots@.len());
                }
                assert(self.wf_slots());
            }
            Ok(id)
        }
    }

    proof fn lemma_links_after_fresh(old_g: Graph, new_g: Graph, j: int)
        requires
            old_g.wf_links(),
            old_g.wf_slots(),
            new_g.rank == old_g.rank,
            0 <= j < new_g.slots@.len(),
            new_g.slots@.len() == old_g.slots@.len() || (new_g.slots@.len() == old_g.slots@.len() + 1
                && j == old_g.slots@.len()),
            forall|i: int| 0 <= i < old_g.slots@.len() && i != j ==> new_g.slots@[i] == old_g.slots@[i],
            j < old_g.slots@.len() ==> !old_g.slots@[j].live,
            new_g.slots@[j].live,
            new_g.slots@[j].data is Some,
            new_g.rec_at(j).dependencies@.len() == 0,
            new_g.rec_at(j).dependents@.len() == 0,
        ensures
            new_g.wf_links(),
    {
        assert forall|i: int| #[trigger] new_g.live_at(i) implies ascending(new_g.rec_at(i).dependencies@)
            && ascending(new_g.rec_at(i).dependents@) by {
            if i != j {
                assert(old_g.live_at(i));
            }
        }
        assert forall|i: int, k: int| #[trigger] new_g.live_at(i) && 0 <= k < new_g.rec_at(i).dependencies@.len() implies {
            let d = #[trigger] new_g.rec_at(i).dependencies@[k];
            &&& new_g.valid(d)
            &&& new_g.rec(d).dependents@.contains(new_g.rec_at(i).id)
            &&& new_g.rank@[d.index as int] < new_g.rank@[i]
        } by {
            assert(i != j);
            assert(old_g.live_at(i));
            let d = old_g.rec_at(i).dependencies@[k];
            assert(old_g.valid(d));
            assert(d.index != j);
        }
        assert forall|i: int, k: int| #[trigger] new_g.live_at(i) && 0 <= k < new_g.rec_at(i).dependents@.len() implies {
            let u = #[trigger] new_g.rec_at(i).dependents@[k];
            &&& new_g.valid(u)
            &&& new_g.rec(u).dependencies@.contains(new_g.rec_at(i).id)
        } by {
            assert(i != j);
            assert(old_g.live_at(i));
            let u = old_g.rec_at(i).dependents@[k];
            assert(old_g.valid(u));
            assert(u.index != j);
        }
    }
}

spec fn count_false(s: Seq<bool>) -> nat
    decreases s.len(),
{
    if s.len() == 0 {
        0
    } else {
        count_false(s.drop_last()) + (if s.last() { 0nat } else { 1nat })
    }
}

proof fn lemma_count_false_set(s: Seq<bool>, i: int)
    requires
        0 <= i < s.len(),
        !s[i],
    ensures
        count_false(s.update(i, true)) + 1 == count_false(s),
    decreases s.len(),
{
    if i == s.len() - 1 {
        assert(s.update(i, true).drop_last() =~= s.drop_last());
    } else {
        lemma_count_false_set(s.drop_last(), i);
        assert(s.update(i, true).drop_last() =~= s.drop_last().update(i, true));
    }
}

/// Message of a traversal that would exceed its budget.
pub open spec fn msg_traversal_budget() -> Seq<char> {
    "graph traversal budget exceeded"@
}

impl Graph {
    /// A walk along dependents: each step goes from a node to one that depends on it.
    pub closed spec fn is_walk(&self, p: Seq<int>) -> bool {
        &&& p.len() >= 1
        &&& forall|k: int| 0 <= k < p.len() - 1 ==> #[trigger] self.succ(p[k], p[k + 1])
    }

    /// Slot `j` is downstream of slot `i`, by a walk of zero or more steps.
    pub closed spec fn reach_index(&self, i: int, j: int) -> bool {
        exists|p: Seq<int>| #[trigger] self.is_walk(p) && p[0] == i && p.last() == j
    }

    /// `to` is a live node that lies downstream of `from` by one or more steps.
    pub closed spec fn downstream(&self, from: NodeId, to: NodeId) -> bool {
        &&& self.valid(to)
        &&& exists|p: Seq<int>| #[trigger] self.is_walk(p) && p.len() >= 2 && p[0] == from.index && p.last() == to.index
    }

    proof fn lemma_walk_extend(&self, p: Seq<int>, j: int)
        requires
            self.is_walk(p),
            self.succ(p.last(), j),
        ensures
            self.is_walk(p.push(j)),
    {
        assert forall|k: int| 0 <= k < p.push(j).len() - 1 implies #[trigger] self.succ(p.push(j)[k], p.push(j)[k + 1]) by {
            if k < p.len() - 1 {
                assert(self.succ(p[k], p[k + 1]));
            }
        }
    }

    proof fn lemma_closed_walk(&self, seen: Seq<bool>, p: Seq<int>)
        requires
            self.is_walk(p),
            0 <= p[0] < seen.len(),
            seen[p[0]],
            forall|i: int, j: int| 0 <= i < seen.len() && seen[i] && #[trigger] self.succ(i, j) ==> 0 <= j < seen.len() && seen[j],
        ensures
            0 <= p.last() < seen.len() && seen[p.last()],
        decreases p.len(),
    {
        if p.len() > 1 {
            let q = p.drop_last();
            assert(self.is_walk(q)) by {
                assert forall|k: int| 0 <= k < q.len() - 1 implies #[trigger] self.succ(q[k], q[k + 1]) by {
                    assert(self.succ(p[k], p[k + 1]));
                }
            }
            self.lemma_closed_walk(seen, q);
            assert(self.succ(p[p.len() - 2], p[p.len() - 1]));
        }
    }

    /// True if `to` can be reached from `from` by following dependents
    /// (downstream), in one or more steps.
    pub fn reaches(&self, from: NodeId, to: NodeId) -> (r: Result<bool, Error>)
        requires
            self.wf(),
        ensures
            self.limits_of().max_nodes == 0 ==> (r matches Err(e) && e.is_limit(msg_traversal_budget())),
            self.limits_of().max_nodes > 0 ==> (r is Ok <==> self.valid(from)),
            self.limits_of().max_nodes > 0 && !self.valid(from) ==> (r matches Err(e) && e == self.lookup_error(from)),
            r matches Ok(b) ==> b == (from != to && self.downstream(from, to)),
    {
        if self.limits.max_nodes == 0 {
            return Err(Error::Limit(owned("graph traversal budget exceeded")));
        }
        self.check(from)?;
        let n = self.slots.len();
        let mut seen: Vec<bool> = Vec::new();
        let mut k: usize = 0;
        while k < n
            invariant
                k <= n,
                n == self.slots@.len(),
                seen@.len() == k,
                forall|x: int| 0 <= x < k ==> !(#[trigger] seen@[x]),
            decreases n - k,
        {
            seen.push(false);
            k = k + 1;
        }
        let mut stack: Vec<NodeId> = Vec::new();
        stack.push(from);
        let ghost fi = from.index as int;
        proof {
            assert(self.is_walk(seq![fi]));
            assert(stack@[0] == from);
        }
        while stack.len() > 0
            invariant
                self.wf(),
                self.valid(from),
                self.limits.max_nodes > 0,
                fi == from.index as int,
                seen@.len() == self.slots@.len(),
                forall|k: int| 0 <= k < stack@.len() ==> self.valid(#[trigger] stack@[k]),
                forall|k: int| 0 <= k < stack@.len() ==> self.reach_index(fi, (#[trigger] stack@[k]).index as int),
                forall|i: int| 0 <= i < seen@.len() && #[trigger] seen@[i] ==> self.live_at(i) && self.reach_index(fi, i),
                forall|i: int, j: int| 0 <= i < seen@.len() && seen@[i] && #[trigger] self.succ(i, j) ==>
                    (0 <= j < seen@.len() && seen@[j]) || stack@.contains(self.rec_at(j).id),
                seen@[fi] || stack@.contains(from),
                from != to && self.valid(to) ==> !seen@[to.index as int],
            decreases count_false(seen@), stack@.len(),
        {
            let ghost pre = stack@;
            let id = stack.pop().unwrap();
            let ghost popped = id;
            assert(pre =~= stack@.push(id));
            let i = id.index as usize;
            if seen[i] {
                proof {
                    assert forall|a: int, b: int| 0 <= a < seen@.len() && seen@[a] && #[trigger] self.succ(a, b) implies
                        (0 <= b < seen@.len() && seen@[b]) || stack@.contains(self.rec_at(b).id) by {
                        if !(0 <= b < seen@.len() && seen@[b]) {
                            let old_stack = pre;
                            assert(old_stack.contains(self.rec_at(b).id));
                            let kk = choose|kk: int| 0 <= kk < old_stack.len() && old_stack[kk] == self.rec_at(b).id;
                            if kk == old_stack.len() - 1 {
                                assert(self.valid(popped));
                                assert(self.rec_at(b).id == popped);
                                assert(self.live_at(b));
                                assert(b == popped.index);
                            } else {
                                assert(stack@[kk] == self.rec_at(b).id);
                            }
                        }
                    }
                    if !seen@[fi] {
                        assert(pre.contains(from));
                        if from != popped {
                            let kk = choose|kk: int| 0 <= kk < pre.len() && pre[kk] == from;
                            assert(stack@[kk] == from);
                        }
                    }
                }
                continue;
            }
            proof {
                lemma_count_false_set(seen@, i as int);
            }
            let ghost old_stack = pre;
            seen.set(i, true);
            if id == to && from != to {
                proof {
                    let p = choose|p: Seq<int>| #[trigger] self.is_walk(p) && p[0] == fi && p.last() == i as int;
                    assert(self.is_walk(p) && p[0] == fi && p.last() == i as int);
                    assert(from.index != to.index);
                    assert(p.len() >= 2);
                }
                return Ok(true);
            }
            let deps = &self.slots[i].data.as_ref().unwrap().dependents;
            assert(self.live_at(i as int));
            let mut k: usize = 0;
            while k < deps.len()
                invariant
                    self.wf(),
                    self.live_at(i as int),
                    *deps == self.rec_at(i as int).dependents,
                    k <= deps@.len(),
                    seen@.len() == self.slots@.len(),
                    seen@[i as int],
                    self.reach_index(fi, i as int),
                    forall|m: int| 0 <= m < stack@.len() ==> self.valid(#[trigger] stack@[m]),
                    forall|m: int| 0 <= m < stack@.len() ==> self.reach_index(fi, (#[trigger] stack@[m]).index as int),
                    forall|m: int| 0 <= m < k ==> stack@.contains(#[trigger] deps@[m]),
                    forall|x: NodeId| old_stack.contains(x) ==> stack@.contains(x) || x == id,
                decreases deps@.len() - k,
            {
                let u = deps[k];
                proof {
                    assert(self.valid(u));
                    assert(self.succ(i as int, u.index as int));
                    let p = choose|p: Seq<int>| #[trigger] self.is_walk(p) && p[0] == fi && p.last() == i as int;
                    self.lemma_walk_extend(p, u.index as int);
                    assert(self.is_walk(p.push(u.index as int)));
                }
                let ghost before = stack@;
                stack.push(u);
                proof {
                    assert forall|m: int| 0 <= m < k + 1 implies stack@.contains(#[trigger] deps@[m]) by {
                        if m < k {
                            let mm = choose|mm: int| 0 <= mm < before.len() && before[mm] == deps@[m];
                            assert(stack@[mm] == deps@[m]);
                        } else {
                            assert(stack@[stack@.len() - 1] == deps@[m]);
                        }
                    }
                    assert forall|x: NodeId| old_stack.contains(x) implies stack@.contains(x) || x == id by {
                        if before.contains(x) {
                            let mm = choose|mm: int| 0 <= mm < before.len() && before[mm] == x;
                            assert(stack@[mm] == x);
                        }
                    }
                }
                k = k + 1;
            }
            proof {
                assert forall|a: int, b: int| 0 <= a < seen@.len() && seen@[a] && #[trigger] self.succ(a, b) implies
                    (0 <= b < seen@.len() && seen@[b]) || stack@.contains(self.rec_at(b).id) by {
                    if a == i as int {
                        let kk = choose|kk: int| 0 <= kk < deps@.len() && deps@[kk] == self.rec_at(b).id;
                        assert(stack@.contains(deps@[kk]));
                    } else if !(0 <= b < seen@.len() && seen@[b]) {
                        assert(old_stack.contains(self.rec_at(b).id));
                        if self.rec_at(b).id == id {
                            assert(self.live_at(b));
                            assert(b == i as int);
                        }
                    }
                }
                if !seen@[fi] {
                    assert(old_stack.contains(from));
                }
            }
        }
        proof {
            if from != to && self.downstream(from, to) {
                let p = choose|p: Seq<int>| #[trigger] self.is_walk(p) && p.len() >= 2 && p[0] == from.index && p.last() == to.index;
                self.lemma_closed_walk(seen@, p);
            }
        }
        Ok(false)
    }
}

fn contains_id(v: &Vec<NodeId>, x: NodeId) -> (b: bool)
    ensures
        b == v@.contains(x),
{
    let mut k: usize = 0;
    while k < v.len()
        invariant
            k <= v@.len(),
            forall|m: int| 0 <= m < k ==> v@[m] != x,
        decreases v@.len() - k,
    {
        if v[k] == x {
            assert(v@[k as int] == x);
            return true;
        }
        k = k + 1;
    }
    false
}

/// The first position of `v` whose index is not below that of `x`.
fn find_pos(v: &Vec<NodeId>, x: NodeId) -> (p: usize)
    requires
        ascending(v@),
    ensures
        p <= v@.len(),
        forall|k: int| 0 <= k < p ==> (#[trigger] v@[k]).index < x.index,
        forall|k: int| p <= k < v@.len() ==> (#[trigger] v@[k]).index >= x.index,
{
    let mut k: usize = 0;
    while k < v.len() && v[k].index < x.index
        invariant
            k <= v@.len(),
            ascending(v@),
            forall|m: int| 0 <= m < k ==> (#[trigger] v@[m]).index < x.index,
        decreases v@.len() - k,
    {
        k = k + 1;
    }
    k
}

proof fn lemma_insert_ascending(s: Seq<NodeId>, p: int, x: NodeId)
    requires
        ascending(s),
        0 <= p <= s.len(),
        forall|k: int| 0 <= k < p ==> (#[trigger] s[k]).index < x.index,
        forall|k: int| p <= k < s.len() ==> (#[trigger] s[k]).index > x.index,
    ensures
        ascending(s.insert(p, x)),
        forall|y: NodeId| #[trigger] s.insert(p, x).contains(y) <==> (s.contains(y) || y == x),
        s.insert(p, x).len() == s.len() + 1,
{
    let t = s.insert(p, x);
    assert forall|a: int, b: int| 0 <= a < b < t.len() implies (#[trigger] t[a]).index < (#[trigger] t[b]).index by {
        if b < p {
        } else if b == p {
        } else if a < p {
            assert(t[b] == s[b - 1]);
        } else if a == p {
            assert(t[b] == s[b - 1]);
        } else {
            assert(t[a] == s[a - 1]);
            assert(t[b] == s[b - 1]);
        }
    }
    assert forall|y: NodeId| #[trigger] t.contains(y) <==> (s.contains(y) || y == x) by {
        if t.contains(y) {
            let m = choose|m: int| 0 <= m < t.len() && t[m] == y;
            if m < p {
                assert(s[m] == y);
            } else if m > p {
                assert(s[m - 1] == y);
            }
        }
        if s.contains(y) {
            let m = choose|m: int| 0 <= m < s.len() && s[m] == y;
            if m < p {
                assert(t[m] == y);
            } else {
                assert(t[m + 1] == y);
            }
        }
        if y == x {
            assert(t[p] == y);
        }
    }
}

proof fn lemma_remove_ascending(s: Seq<NodeId>, p: int)
    requires
        ascending(s),
        0 <= p < s.len(),
    ensures
        ascending(s.remove(p)),
        forall|y: NodeId| #[trigger] s.remove(p).contains(y) <==> (s.contains(y) && y != s[p]),
        s.remove(p).len() + 1 == s.len(),
{
    let t = s.remove(p);
    assert forall|a: int, b: int| 0 <= a < b < t.len() implies (#[trigger] t[a]).index < (#[trigger] t[b]).index by {
        if b < p {
        } else if a < p {
            assert(t[b] == s[b + 1]);
        } else {
            assert(t[a] == s[a + 1]);
            assert(t[b] == s[b + 1]);
        }
    }
    assert forall|y: NodeId| #[trigger] t.contains(y) <==> (s.contains(y) && y != s[p]) by {
        if t.contains(y) {
            let m = choose|m: int| 0 <= m < t.len() && t[m] == y;
            if m < p {
                assert(s[m] == y);
                assert(s[m].index < s[p].index);
            } else {
                assert(s[m + 1] == y);
                assert(s[p].index < s[m + 1].index);
            }
        }
        if s.contains(y) && y != s[p] {
            let m = choose|m: int| 0 <= m < s.len() && s[m] == y;
            if m < p {
                assert(t[m] == y);
            } else {
                assert(m != p);
                assert(t[m - 1] == y);
            }
        }
    }
}

/// Insert `x` into `v` in index order, when no element shares its index.
fn insert_id(v: &mut Vec<NodeId>, x: NodeId)
    requires
        ascending(old(v)@),
        forall|k: int| 0 <= k < old(v)@.len() ==> (#[trigger] old(v)@[k]).index != x.index,
    ensures
        ascending(final(v)@),
        forall|y: NodeId| #[trigger] final(v)@.contains(y) <==> (old(v)@.contains(y) || y == x),
        final(v)@.len() == old(v)@.len() + 1,
{
    let p = find_pos(v, x);
    proof {
        assert forall|k: int| p <= k < v@.len() implies (#[trigger] v@[k]).index > x.index by {
            assert(v@[k].index != x.index);
        }
        lemma_insert_ascending(v@, p as int, x);
    }
    v.insert(p, x);
}

/// Remove `x` from `v`; returns whether it was there.
fn remove_id(v: &mut Vec<NodeId>, x: NodeId) -> (found: bool)
    requires
        ascending(old(v)@),
    ensures
        found == old(v)@.contains(x),
        ascending(final(v)@),
        forall|y: NodeId| #[trigger] final(v)@.contains(y) <==> (old(v)@.contains(y) && y != x),
        final(v)@.len() + (if found { 1int } else { 0int }) == old(v)@.len(),
{
    let p = find_pos(v, x);
    if p < v.len() && v[p] == x {
        proof {
            lemma_remove_ascending(v@, p as int);
            assert(v@[p as int] == x);
        }
        v.remove(p);
        true
    } else {
        proof {
            if v@.contains(x) {
                let m = choose|m: int| 0 <= m < v@.len() && v@[m] == x;
                assert(m >= p);
                if m > p {
                    assert(v@[p as int].index < v@[m].index);
                }
            }
        }
        false
    }
}

/// Message of a node made to depend on itself.
pub open spec fn msg_self_cycle(node: NodeId) -> Seq<char> {
    crate::id::node_label(node) + " depends on itself"@
}

/// Message of an edge that would close a cycle.
pub open spec fn msg_would_cycle(node: NodeId, dep: NodeId) -> Seq<char> {
    "adding "@ + crate::id::node_label(node) + " → depends on "@ + crate::id::node_label(dep) + " would cycle"@
}

/// Message of a graph holding its maximum number of edges.
pub open spec fn msg_edge_limit(count: nat, max: nat) -> Seq<char> {
    "edge count "@ + decimal(count) + " exceeds "@ + decimal(max)
}

impl Graph {
    /// Which list of a record an edit touches.
    spec fn slot_edit(&self, old_g: Graph, i: int) -> bool {
        &&& self.slots@.len() == old_g.slots@.len()
        &&& 0 <= i < self.slots@.len()
        &&& forall|j: int| 0 <= j < self.slots@.len() && j != i ==> self.slots@[j] == old_g.slots@[j]
        &&& self.slots@[i].live == old_g.slots@[i].live
        &&& self.slots@[i].generation == old_g.slots@[i].generation
        &&& self.slots@[i].data is Some
        &&& same_payload(self.rec_at(i), old_g.rec_at(i))
        &&& self.free == old_g.free
        &&& self.limits == old_g.limits
        &&& self.edge_count == old_g.edge_count
        &&& self.rank == old_g.rank
    }

    fn edit_dependencies(&mut self, i: usize, x: NodeId, add: bool) -> (found: bool)
        requires
            i < old(self).slots@.len(),
            old(self).slots@[i as int].data is Some,
            ascending(old(self).rec_at(i as int).dependencies@),
            add ==> forall|k: int| 0 <= k < old(self).rec_at(i as int).dependencies@.len()
                ==> (#[trigger] old(self).rec_at(i as int).dependencies@[k]).index != x.index,
        ensures
            final(self).slot_edit(*old(self), i as int),
            final(self).rec_at(i as int).dependents == old(self).rec_at(i as int).dependents,
            ascending(final(self).rec_at(i as int).dependencies@),
            add ==> forall|y: NodeId| #[trigger] final(self).rec_at(i as int).dependencies@.contains(y)
                <==> (old(self).rec_at(i as int).dependencies@.contains(y) || y == x),
            add ==> final(self).rec_at(i as int).dependencies@.len() == old(self).rec_at(i as int).dependencies@.len() + 1,
            !add ==> found == old(self).rec_at(i as int).dependencies@.contains(x),
            !add ==> forall|y: NodeId| #[trigger] final(self).rec_at(i as int).dependencies@.contains(y)
                <==> (old(self).rec_at(i as int).dependencies@.contains(y) && y != x),
            !add ==> final(self).rec_at(i as int).dependencies@.len() + (if found { 1int } else { 0int })
                == old(self).rec_at(i as int).dependencies@.len(),
    {
        let mut rec = self.slots[i].data.take().unwrap();
        let found = if add {
            insert_id(&mut rec.dependencies, x);
            false
        } else {
            remove_id(&mut rec.dependencies, x)
        };
        self.slots[i].data = Some(rec);
        found
    }

    fn edit_dependents(&mut self, i: usize, x: NodeId, add: bool) -> (found: bool)
        requires
            i < old(self).slots@.len(),
            old(self).slots@[i as int].data is Some,
            ascending(old(self).rec_at(i as int).dependents@),
            add ==> forall|k: int| 0 <= k < old(self).rec_at(i as int).dependents@.len()
                ==> (#[trigger] old(self).rec_at(i as int).dependents@[k]).index != x.index,
        ensures
            final(self).slot_edit(*old(self), i as int),
            final(self).rec_at(i as int).dependencies == old(self).rec_at(i as int).dependencies,
            ascending(final(self).rec_at(i as int).dependents@),
            add ==> forall|y: NodeId| #[trigger] final(self).rec_at(i as int).dependents@.contains(y)
                <==> (old(self).rec_at(i as int).dependents@.contains(y) || y == x),
            !add ==> found == old(self).rec_at(i as int).dependents@.contains(x),
            !add ==> forall|y: NodeId| #[trigger] final(self).rec_at(i as int).dependents@.contains(y)
                <==> (old(self).rec_at(i as int).dependents@.contains(y) && y != x),
    {
        let mut rec = self.slots[i].data.take().unwrap();
        let found = if add {
            insert_id(&mut rec.dependents, x);
            false
        } else {
            remove_id(&mut rec.dependents, x)
        };
        self.slots[i].data = Some(rec);
        found
    }
}

/// The ranking after `di -> ni` is added: everything downstream of `ni`
/// moves up far enough to sit above `di`.
spec fn link_rank(g: Graph, ni: int, di: int) -> Map<int, nat> {
    let shift: nat = if g.rank@[di] + 1 > g.rank@[ni] { (g.rank@[di] + 1 - g.rank@[ni]) as nat } else { 0nat };
    Map::new(|i: int| true, |i: int| if g.reach_index(ni, i) { g.rank@[i] + shift } else { g.rank@[i] })
}

impl Graph {
    proof fn lemma_reach_step(&self, a: int, i: int, j: int)
        requires
            self.reach_index(a, i),
            self.succ(i, j),
        ensures
            self.reach_index(a, j),
    {
        let p = choose|p: Seq<int>| #[trigger] self.is_walk(p) && p[0] == a && p.last() == i;
        self.lemma_walk_extend(p, j);
        assert(self.is_walk(p.push(j)) && p.push(j)[0] == a && p.push(j).last() == j);
    }

    proof fn lemma_wf_after_link(g: Graph, h: Graph, ni: int, di: int)
        requires
            g.wf(),
            g.live_at(ni),
            g.live_at(di),
            ni != di,
            !g.reach_index(ni, di),
            h.slots@.len() == g.slots@.len(),
            forall|j: int| 0 <= j < g.slots@.len() && j != ni && j != di ==> h.slots@[j] == g.slots@[j],
            h.slots@[ni].live && h.slots@[ni].generation == g.slots@[ni].generation && h.slots@[ni].data is Some,
            h.slots@[di].live && h.slots@[di].generation == g.slots@[di].generation && h.slots@[di].data is Some,
            same_payload(h.rec_at(ni), g.rec_at(ni)),
            same_payload(h.rec_at(di), g.rec_at(di)),
            h.rec_at(ni).dependents == g.rec_at(ni).dependents,
            h.rec_at(di).dependencies == g.rec_at(di).dependencies,
            ascending(h.rec_at(ni).dependencies@),
            ascending(h.rec_at(di).dependents@),
            forall|y: NodeId| #[trigger] h.rec_at(ni).dependencies@.contains(y)
                <==> (g.rec_at(ni).dependencies@.contains(y) || y == g.rec_at(di).id),
            forall|y: NodeId| #[trigger] h.rec_at(di).dependents@.contains(y)
                <==> (g.rec_at(di).dependents@.contains(y) || y == g.rec_at(ni).id),
            h.rec_at(ni).dependencies@.len() == g.rec_at(ni).dependencies@.len() + 1,
            h.free == g.free,
            h.limits == g.limits,
            h.edge_count == g.edge_count + 1,
            h.rank@ == link_rank(g, ni, di),
        ensures
            h.wf(),
    {
        let shift: nat = if g.rank@[di] + 1 > g.rank@[ni] { (g.rank@[di] + 1 - g.rank@[ni]) as nat } else { 0nat };
        assert(g.is_walk(seq![ni]));
        assert(g.reach_index(ni, ni));
        assert forall|i: int| #[trigger] h.live_at(i) <==> g.live_at(i) by {
            if 0 <= i < g.slots@.len() && i != ni && i != di {
                assert(h.slots@[i] == g.slots@[i]);
            }
        }
        // slots
        let mid = g.slots@.update(ni, h.slots@[ni]);
        lemma_count_live_update(g.slots@, ni, h.slots@[ni]);
        lemma_count_live_update(mid, di, h.slots@[di]);
        assert(mid.update(di, h.slots@[di]) =~= h.slots@);
        assert forall|i: int| #[trigger] h.live_at(i) implies h.rec_at(i).id == (NodeId { index: i as u32, generation: h.slots@[i].generation }) by {
            assert(g.live_at(i));
        }
        assert forall|i: int| 0 <= i < h.slots@.len() implies (#[trigger] h.slots@[i]).live == (h.slots@[i].data is Some) by {
            assert(g.slots@[i].live == (g.slots@[i].data is Some));
        }
        assert forall|k: int| 0 <= k < h.free@.len() implies (#[trigger] h.free@[k]) < h.slots@.len()
            && !h.slots@[h.free@[k] as int].live by {
            assert(!g.slots@[g.free@[k] as int].live);
            assert(!g.live_at(g.free@[k] as int));
        }
        assert(h.wf_slots());
        // valid ids and records are the same everywhere but two records
        assert forall|x: NodeId| #[trigger] h.valid(x) <==> g.valid(x) by {
            assert(h.live_at(x.index as int) <==> g.live_at(x.index as int));
            if 0 <= x.index < g.slots@.len() && x.index != ni && x.index != di {
                assert(h.slots@[x.index as int] == g.slots@[x.index as int]);
            }
        }
        assert forall|i: int| #[trigger] h.live_at(i) implies ascending(h.rec_at(i).dependencies@)
            && ascending(h.rec_at(i).dependents@) by {
            assert(g.live_at(i));
        }
        assert forall|i: int, k: int| #[trigger] h.live_at(i) && 0 <= k < h.rec_at(i).dependencies@.len() implies {
            let d = #[trigger] h.rec_at(i).dependencies@[k];
            &&& h.valid(d)
            &&& h.rec(d).dependents@.contains(h.rec_at(i).id)
            &&& h.rank@[d.index as int] < h.rank@[i]
        } by {
            assert(g.live_at(i));
            let d = h.rec_at(i).dependencies@[k];
            assert(h.rec_at(i).id == g.rec_at(i).id);
            if i == ni && d == g.rec_at(di).id {
                assert(h.rec_at(di).dependents@.contains(g.rec_at(ni).id));
                assert(!g.reach_index(ni, di));
            } else {
                assert(g.rec_at(i).dependencies@.contains(d)) by {
                    if i == ni {
                        assert(h.rec_at(ni).dependencies@.contains(d));
                    }
                }
                let kk = choose|kk: int| 0 <= kk < g.rec_at(i).dependencies@.len() && g.rec_at(i).dependencies@[kk] == d;
                assert(g.valid(d));
                assert(g.rec(d).dependents@.contains(g.rec_at(i).id));
                assert(g.rank@[d.index as int] < g.rank@[i]);
                let di2 = d.index as int;
                assert(g.succ(di2, i));
                if di2 == di {
                    assert(h.rec_at(di).dependents@.contains(g.rec_at(i).id));
                } else if di2 != ni {
                    assert(h.slots@[di2] == g.slots@[di2]);
                }
                if g.reach_index(ni, di2) {
                    g.lemma_reach_step(ni, di2, i);
                }
            }
        }
        assert forall|j: int, k: int| #[trigger] h.live_at(j) && 0 <= k < h.rec_at(j).dependents@.len() implies {
            let u = #[trigger] h.rec_at(j).dependents@[k];
            &&& h.valid(u)
            &&& h.rec(u).dependencies@.contains(h.rec_at(j).id)
        } by {
            assert(g.live_at(j));
            let u = h.rec_at(j).dependents@[k];
            assert(h.rec_at(j).id == g.rec_at(j).id);
            if j == di && u == g.rec_at(ni).id {
                assert(h.rec_at(ni).dependencies@.contains(g.rec_at(di).id));
            } else {
                assert(g.rec_at(j).dependents@.contains(u)) by {
                    if j == di {
                        assert(h.rec_at(di).dependents@.contains(u));
                    }
                }
                let kk = choose|kk: int| 0 <= kk < g.rec_at(j).dependents@.len() && g.rec_at(j).dependents@[kk] == u;
                assert(g.valid(u));
                assert(g.rec(u).dependencies@.contains(g.rec_at(j).id));
                let ui = u.index as int;
                if ui == ni {
                    assert(h.rec_at(ni).dependencies@.contains(g.rec_at(j).id));
                } else if ui != di {
                    assert(h.slots@[ui] == g.slots@[ui]);
                }
            }
        }
        assert(h.wf_links());
    }

    /// Make `node` depend on `dependency` (data flows dependency → node).
    ///
    /// Refused, in this order: a node depending on itself; an id that is not
    /// live; an edge that would close a cycle; a graph holding its maximum
    /// number of edges. An edge that is already there is accepted unchanged.
    pub fn add_dependency(&mut self, node: NodeId, dependency: NodeId) -> (r: Result<(), Error>)
        requires
            old(self).wf(),
        ensures
            final(self).wf(),
            r is Err ==> *final(self) == *old(self),
            node == dependency ==> (r matches Err(e) && e.is_cycle(msg_self_cycle(node))),
            node != dependency && !old(self).valid(node) ==> (r matches Err(e) && e == old(self).lookup_error(node)),
            node != dependency && old(self).valid(node) && !old(self).valid(dependency)
                ==> (r matches Err(e) && e == old(self).lookup_error(dependency)),
            node != dependency && old(self).valid(node) && old(self).valid(dependency) ==> {
                if old(self).downstream(node, dependency) {
                    r matches Err(e) && e.is_cycle(msg_would_cycle(node, dependency))
                } else if old(self).edge_total() >= old(self).limits_of().max_edges {
                    r matches Err(e) && e.is_limit(msg_edge_limit(old(self).edge_total(), old(self).limits_of().max_edges as nat))
                } else if old(self).rec(node).dependencies@.contains(dependency) {
                    r is Ok && *final(self) == *old(self)
                } else {
                    &&& r is Ok
                    &&& forall|x: NodeId| #[trigger] final(self).valid(x) == old(self).valid(x)
                    &&& forall|x: NodeId| old(self).valid(x) && x != node && x != dependency ==> #[trigger] final(self).rec(x) == old(self).rec(x)
                    &&& same_payload(final(self).rec(node), old(self).rec(node))
                    &&& same_payload(final(self).rec(dependency), old(self).rec(dependency))
                    &&& final(self).rec(node).dependents == old(self).rec(node).dependents
                    &&& final(self).rec(dependency).dependencies == old(self).rec(dependency).dependencies
                    &&& ascending(final(self).rec(node).dependencies@)
                    &&& forall|y: NodeId| #[trigger] final(self).rec(node).dependencies@.contains(y)
                        <==> (old(self).rec(node).dependencies@.contains(y) || y == dependency)
                    &&& ascending(final(self).rec(dependency).dependents@)
                    &&& forall|y: NodeId| #[trigger] final(self).rec(dependency).dependents@.contains(y)
                        <==> (old(self).rec(dependency).dependents@.contains(y) || y == node)
                    &&& final(self).edge_total() == old(self).edge_total() + 1
                    &&& final(self).limits_of() == old(self).limits_of()
                    &&& final(self).free_list() == old(self).free_list()
                }
            },
    {
        if node == dependency {
            let mut m = node.label();
            append_str(&mut m, " depends on itself");
            return Err(Error::Cycle(m));
        }
        self.check(node)?;
        self.check(dependency)?;
        proof {
            lemma_count_live_bound(self.slots@);
            assert(self.live_at(node.index as int));
            self.lemma_live_positive(node.index as int);
        }
        if self.reaches(node, dependency)? {
            let mut m = owned("adding ");
            append_str(&mut m, node.label().as_str());
            append_str(&mut m, " → depends on ");
            append_str(&mut m, dependency.label().as_str());
            append_str(&mut m, " would cycle");
            assert(m@ =~= msg_would_cycle(node, dependency));
            return Err(Error::Cycle(m));
        }
        if self.edge_count >= self.limits.max_edges {
            let mut m = owned("edge count ");
            append_decimal(&mut m, self.edge_count as u128);
            append_str(&mut m, " exceeds ");
            append_decimal(&mut m, self.limits.max_edges as u128);
            assert(m@ =~= msg_edge_limit(self.edge_count as nat, self.limits.max_edges as nat));
            return Err(Error::Limit(m));
        }
        let ni = node.index as usize;
        let di = dependency.index as usize;
        let present = contains_id(&self.slots[ni].data.as_ref().unwrap().dependencies, dependency);
        if present {
            return Ok(());
        }
        let ghost g = *self;
        proof {
            assert(!g.reach_index(ni as int, di as int)) by {
                if g.reach_index(ni as int, di as int) {
                    let p = choose|p: Seq<int>| #[trigger] g.is_walk(p) && p[0] == ni as int && p.last() == di as int;
                    assert(p.len() >= 2);
                }
            }
            assert forall|k: int| 0 <= k < g.rec_at(ni as int).dependencies@.len()
                implies (#[trigger] g.rec_at(ni as int).dependencies@[k]).index != dependency.index by {
                let d = g.rec_at(ni as int).dependencies@[k];
                assert(g.valid(d));
            }
            assert forall|k: int| 0 <= k < g.rec_at(di as int).dependents@.len()
                implies (#[trigger] g.rec_at(di as int).dependents@[k]).index != node.index by {
                let u = g.rec_at(di as int).dependents@[k];
                assert(g.valid(u));
                if u.index == node.index {
                    assert(u == node);
                    assert(g.rec(u).dependencies@.contains(g.rec_at(di as int).id));
                }
            }
        }
        self.edit_dependencies(ni, dependency, true);
        self.edit_dependents(di, node, true);
        self.edge_count = self.edge_count + 1;
        self.rank = Ghost(link_rank(g, ni as int, di as int));
        proof {
            Self::lemma_wf_after_link(g, *self, ni as int, di as int);
            assert forall|x: NodeId| #[trigger] self.valid(x) == g.valid(x) by {
                if 0 <= x.index < g.slots@.len() && x.index != ni && x.index != di {
                    assert(self.slots@[x.index as int] == g.slots@[x.index as int]);
                }
            }
            assert forall|x: NodeId| g.valid(x) && x != node && x != dependency implies #[trigger] self.rec(x) == g.rec(x) by {
                assert(x.index != ni && x.index != di);
            }
        }
        Ok(())
    }

    proof fn lemma_live_positive(&self, i: int)
        requires
            self.live_at(i),
        ensures
            count_live(self.slots@) >= 1,
    {
        lemma_count_live_one(self.slots@, i);
    }
}

impl Graph {
    proof fn lemma_wf_after_unlink(g: Graph, h: Graph, ni: int, di: int, found: bool)
        requires
            g.wf(),
            g.live_at(ni),
            g.live_at(di),
            ni != di,
            found == g.rec_at(ni).dependencies@.contains(g.rec_at(di).id),
            h.slots@.len() == g.slots@.len(),
            forall|j: int| 0 <= j < g.slots@.len() && j != ni && j != di ==> h.slots@[j] == g.slots@[j],
            h.slots@[ni].live && h.slots@[ni].generation == g.slots@[ni].generation && h.slots@[ni].data is Some,
            h.slots@[di].live && h.slots@[di].generation == g.slots@[di].generation && h.slots@[di].data is Some,
            same_payload(h.rec_at(ni), g.rec_at(ni)),
            same_payload(h.rec_at(di), g.rec_at(di)),
            h.rec_at(ni).dependents == g.rec_at(ni).dependents,
            h.rec_at(di).dependencies == g.rec_at(di).dependencies,
            ascending(h.rec_at(ni).dependencies@),
            ascending(h.rec_at(di).dependents@),
            forall|y: NodeId| #[trigger] h.rec_at(ni).dependencies@.contains(y)
                <==> (g.rec_at(ni).dependencies@.contains(y) && y != g.rec_at(di).id),
            forall|y: NodeId| #[trigger] h.rec_at(di).dependents@.contains(y)
                <==> (g.rec_at(di).dependents@.contains(y) && y != g.rec_at(ni).id),
            h.rec_at(ni).dependencies@.len() + (if found { 1int } else { 0int }) == g.rec_at(ni).dependencies@.len(),
            h.free == g.free,
            h.limits == g.limits,
            h.edge_count + (if found { 1int } else { 0int }) == g.edge_count,
            h.rank == g.rank,
        ensures
            h.wf(),
            count_live(h.slots@) == count_live(g.slots@),
    {
        assert forall|i: int| #[trigger] h.live_at(i) <==> g.live_at(i) by {
            if 0 <= i < g.slots@.len() && i != ni && i != di {
                assert(h.slots@[i] == g.slots@[i]);
            }
        }
        let mid = g.slots@.update(ni, h.slots@[ni]);
        lemma_count_live_update(g.slots@, ni, h.slots@[ni]);
        lemma_count_live_update(mid, di, h.slots@[di]);
        assert(mid.update(di, h.slots@[di]) =~= h.slots@);
        assert forall|i: int| #[trigger] h.live_at(i) implies h.rec_at(i).id == (NodeId { index: i as u32, generation: h.slots@[i].generation }) by {
            assert(g.live_at(i));
        }
        assert forall|i: int| 0 <= i < h.slots@.len() implies (#[trigger] h.slots@[i]).live == (h.slots@[i].data is Some) by {
            assert(g.slots@[i].live == (g.slots@[i].data is Some));
        }
        assert forall|k: int| 0 <= k < h.free@.len() implies (#[trigger] h.free@[k]) < h.slots@.len()
            && !h.slots@[h.free@[k] as int].live by {
            assert(!g.live_at(g.free@[k] as int));
        }
        assert(h.wf_slots());
        assert forall|x: NodeId| #[trigger] h.valid(x) <==> g.valid(x) by {
            assert(h.live_at(x.index as int) <==> g.live_at(x.index as int));
            if 0 <= x.index < g.slots@.len() && x.index != ni && x.index != di {
                assert(h.slots@[x.index as int] == g.slots@[x.index as int]);
            }
        }
        assert forall|i: int| #[trigger] h.live_at(i) implies ascending(h.rec_at(i).dependencies@)
            && ascending(h.rec_at(i).dependents@) by {
            assert(g.live_at(i));
        }
        assert forall|i: int, k: int| #[trigger] h.live_at(i) && 0 <= k < h.rec_at(i).dependencies@.len() implies {
            let d = #[trigger] h.rec_at(i).dependencies@[k];
            &&& h.valid(d)
            &&& h.rec(d).dependents@.contains(h.rec_at(i).id)
            &&& h.rank@[d.index as int] < h.rank@[i]
        } by {
            assert(g.live_at(i));
            let d = h.rec_at(i).dependencies@[k];
            assert(h.rec_at(i).id == g.rec_at(i).id);
            assert(g.rec_at(i).dependencies@.contains(d)) by {
                assert(h.rec_at(i).dependencies@.contains(d));
                if i != ni && i != di {
                    assert(h.slots@[i] == g.slots@[i]);
                }
            }
            let kk = choose|kk: int| 0 <= kk < g.rec_at(i).dependencies@.len() && g.rec_at(i).dependencies@[kk] == d;
            assert(g.valid(d));
            assert(g.rec(d).dependents@.contains(g.rec_at(i).id));
            let d2 = d.index as int;
            if d2 == di {
                if i == ni {
                    assert(h.rec_at(ni).dependencies@.contains(d));
                    assert(d != g.rec_at(di).id);
                }
                assert(h.rec_at(di).dependents@.contains(g.rec_at(i).id));
            } else if d2 != ni {
                assert(h.slots@[d2] == g.slots@[d2]);
            }
        }
        assert forall|j: int, k: int| #[trigger] h.live_at(j) && 0 <= k < h.rec_at(j).dependents@.len() implies {
            let u = #[trigger] h.rec_at(j).dependents@[k];
            &&& h.valid(u)
            &&& h.rec(u).dependencies@.contains(h.rec_at(j).id)
        } by {
            assert(g.live_at(j));
            let u = h.rec_at(j).dependents@[k];
            assert(h.rec_at(j).id == g.rec_at(j).id);
            assert(g.rec_at(j).dependents@.contains(u)) by {
                assert(h.rec_at(j).dependents@.contains(u));
                if j != ni && j != di {
                    assert(h.slots@[j] == g.slots@[j]);
                }
            }
            let kk = choose|kk: int| 0 <= kk < g.rec_at(j).dependents@.len() && g.rec_at(j).dependents@[kk] == u;
            assert(g.valid(u));
            assert(g.rec(u).dependencies@.contains(g.rec_at(j).id));
            let ui = u.index as int;
            if ui == ni {
                if j == di {
                    assert(h.rec_at(di).dependents@.contains(u));
                    assert(u != g.rec_at(ni).id);
                }
                assert(h.rec_at(ni).dependencies@.contains(g.rec_at(j).id));
            } else if ui != di {
                assert(h.slots@[ui] == g.slots@[ui]);
            }
        }
        assert(h.wf_links());
    }

    /// Remove the edge "`node` depends on `dependency`", if present.
    pub fn remove_dependency(&mut self, node: NodeId, dependency: NodeId) -> (r: Result<(), Error>)
        requires
            old(self).wf(),
        ensures
            final(self).wf(),
            r is Ok <==> old(self).valid(node) && old(self).valid(dependency),
            !old(self).valid(node) ==> (r matches Err(e) && e == old(self).lookup_error(node)),
            old(self).valid(node) && !old(self).valid(dependency) ==> (r matches Err(e) && e == old(self).lookup_error(dependency)),
            r is Err || node == dependency ==> *final(self) == *old(self),
            final(self).slot_count() == old(self).slot_count(),
            final(self).live_total() == old(self).live_total(),
            forall|i: int| 0 <= i < old(self).slot_count() ==> #[trigger] final(self).generation_at(i) == old(self).generation_at(i),
            r is Ok && node != dependency ==> {
                let found = old(self).rec(node).dependencies@.contains(dependency);
                &&& forall|x: NodeId| #[trigger] final(self).valid(x) == old(self).valid(x)
                &&& forall|x: NodeId| old(self).valid(x) && x != node && x != dependency ==> #[trigger] final(self).rec(x) == old(self).rec(x)
                &&& same_payload(final(self).rec(node), old(self).rec(node))
                &&& same_payload(final(self).rec(dependency), old(self).rec(dependency))
                &&& final(self).rec(node).dependents == old(self).rec(node).dependents
                &&& final(self).rec(dependency).dependencies == old(self).rec(dependency).dependencies
                &&& ascending(final(self).rec(node).dependencies@)
                &&& forall|y: NodeId| #[trigger] final(self).rec(node).dependencies@.contains(y)
                    <==> (old(self).rec(node).dependencies@.contains(y) && y != dependency)
                &&& ascending(final(self).rec(dependency).dependents@)
                &&& forall|y: NodeId| #[trigger] final(self).rec(dependency).dependents@.contains(y)
                    <==> (old(self).rec(dependency).dependents@.contains(y) && y != node)
                &&& final(self).edge_total() + (if found { 1int } else { 0int }) == old(self).edge_total()
                &&& final(self).limits_of() == old(self).limits_of()
                &&& final(self).free_list() == old(self).free_list()
            },
    {
        self.check(node)?;
        self.check(dependency)?;
        if node == dependency {
            return Ok(());
        }
        let ni = node.index as usize;
        let di = dependency.index as usize;
        let ghost g = *self;
        proof {
            assert(self.live_at(ni as int) && self.live_at(di as int));
            assert(self.rec_at(di as int).id == dependency);
            assert(self.rec_at(ni as int).id == node);
        }
        let found = self.edit_dependencies(ni, dependency, false);
        self.edit_dependents(di, node, false);
        if found {
            proof {
                lemma_count_live_update(g.slots@, ni as int, self.slots@[ni as int]);
                assert(deps_len(g.slots@[ni as int]) >= 1);
                lemma_sum_deps_ge(g.slots@, ni as int);
            }
            self.edge_count = self.edge_count - 1;
        }
        proof {
            Self::lemma_wf_after_unlink(g, *self, ni as int, di as int, found);
            assert forall|x: NodeId| #[trigger] self.valid(x) == g.valid(x) by {
                if 0 <= x.index < g.slots@.len() && x.index != ni && x.index != di {
                    assert(self.slots@[x.index as int] == g.slots@[x.index as int]);
                }
            }
            assert forall|x: NodeId| g.valid(x) && x != node && x != dependency implies #[trigger] self.rec(x) == g.rec(x) by {
                assert(x.index != ni && x.index != di);
            }
        }
        Ok(())
    }
}

fn copy_ids(v: &Vec<NodeId>) -> (r: Vec<NodeId>)
    ensures
        r@ == v@,
{
    let mut r: Vec<NodeId> = Vec::new();
    let mut k: usize = 0;
    while k < v.len()
        invariant
            k <= v@.len(),
            r@ == v@.subrange(0, k as int),
        decreases v@.len() - k,
    {
        r.push(v[k]);
        k = k + 1;
        assert(r@ =~= v@.subrange(0, k as int));
    }
    assert(v@.subrange(0, k as int) =~= v@);
    r
}

proof fn lemma_ascending_distinct(s: Seq<NodeId>, a: int, b: int)
    requires
        ascending(s),
        0 <= a < s.len(),
        0 <= b < s.len(),
        s[a] == s[b],
    ensures
        a == b,
{
    if a < b {
        assert(s[a].index < s[b].index);
    } else if b < a {
        assert(s[b].index < s[a].index);
    }
}

impl Graph {
    /// Remove a node and every edge that touches it. The slot is freed, so
    /// the removed id becomes stale. Returns the record with its edge lists
    /// emptied.
    pub fn remove(&mut self, id: NodeId) -> (r: Result<NodeRecord, Error>)
        requires
            old(self).wf(),
        ensures
            final(self).wf(),
            r is Ok <==> old(self).valid(id),
            r matches Err(e) ==> e == old(self).lookup_error(id) && *final(self) == *old(self),
            r matches Ok(rec) ==> {
                &&& same_payload(rec, old(self).rec(id))
                &&& rec.dependencies@.len() == 0
                &&& rec.dependents@.len() == 0
                &&& forall|x: NodeId| #[trigger] final(self).valid(x) == (old(self).valid(x) && x.index != id.index)
                &&& forall|x: NodeId| old(self).valid(x) && x != id ==> {
                    &&& same_payload(#[trigger] final(self).rec(x), old(self).rec(x))
                    &&& ascending(final(self).rec(x).dependencies@)
                    &&& ascending(final(self).rec(x).dependents@)
                    &&& forall|y: NodeId| #[trigger] final(self).rec(x).dependencies@.contains(y)
                        <==> (old(self).rec(x).dependencies@.contains(y) && y != id)
                    &&& forall|y: NodeId| #[trigger] final(self).rec(x).dependents@.contains(y)
                        <==> (old(self).rec(x).dependents@.contains(y) && y != id)
                }
                &&& final(self).edge_total() + old(self).rec(id).dependencies@.len() + old(self).rec(id).dependents@.len()
                    == old(self).edge_total()
                &&& final(self).live_total() + 1 == old(self).live_total()
                &&& final(self).free_list() == old(self).free_list().push(id.index)
                &&& final(self).slot_count() == old(self).slot_count()
                &&& final(self).limits_of() == old(self).limits_of()
                &&& final(self).slot_count() == old(self).slot_count()
                &&& forall|i: int| 0 <= i < old(self).slot_count() ==> #[trigger] final(self).generation_at(i) == old(self).generation_at(i)
            },
    {
        self.check(id)?;
        let i = id.index as usize;
        let ghost g = *self;
        proof {
            assert(self.live_at(i as int));
            assert(self.rec_at(i as int).id == id);
        }
        let deps = copy_ids(&self.slots[i].data.as_ref().unwrap().dependencies);
        let depents = copy_ids(&self.slots[i].data.as_ref().unwrap().dependents);
        assert(deps@.subrange(0, deps@.len() as int) =~= deps@);
        assert(depents@.subrange(0, depents@.len() as int) =~= depents@);
        assert(deps@.subrange(0, 0) =~= Seq::<NodeId>::empty());
        let mut k: usize = 0;
        while k < deps.len()
            invariant
                self.wf(),
                g.wf(),
                g.valid(id),
                i == id.index,
                deps@ == g.rec(id).dependencies@,
                depents@ == g.rec(id).dependents@,
                k <= deps@.len(),
                forall|x: NodeId| #[trigger] self.valid(x) == g.valid(x),
                self.slots@.len() == g.slots@.len(),
                forall|j: int| 0 <= j < g.slot_count() ==> #[trigger] self.generation_at(j) == g.generation_at(j),
                self.free@ == g.free@,
                self.limits == g.limits,
                self.live_total() == g.live_total(),
                self.edge_count + k == g.edge_count,
                same_payload(self.rec(id), g.rec(id)),
                ascending(self.rec(id).dependencies@),
                forall|y: NodeId| #[trigger] self.rec(id).dependencies@.contains(y)
                    <==> (deps@.subrange(k as int, deps@.len() as int).contains(y)),
                self.rec(id).dependents@ == g.rec(id).dependents@,
                forall|x: NodeId| g.valid(x) && x != id ==> {
                    &&& same_payload(#[trigger] self.rec(x), g.rec(x))
                    &&& self.rec(x).dependencies == g.rec(x).dependencies
                    &&& ascending(self.rec(x).dependents@)
                    &&& forall|y: NodeId| #[trigger] self.rec(x).dependents@.contains(y)
                        <==> (g.rec(x).dependents@.contains(y) && !(y == id && deps@.subrange(0, k as int).contains(x)))
                },
            decreases deps@.len() - k,
        {
            let dep = deps[k];
            let ghost before = *self;
            proof {
                assert(g.rec(id).dependencies@.contains(dep));
                assert(g.valid(dep));
                assert(dep != id) by {
                    assert(g.rank@[dep.index as int] < g.rank@[id.index as int]);
                }
                assert(deps@.subrange(k as int, deps@.len() as int).contains(dep)) by {
                    assert(deps@.subrange(k as int, deps@.len() as int)[0] == dep);
                }
            }
            let rr = self.remove_dependency(id, dep);
            proof {
                let s0 = deps@.subrange(k as int, deps@.len() as int);
                let s1 = deps@.subrange(k + 1, deps@.len() as int);
                assert forall|y: NodeId| #[trigger] self.rec(id).dependencies@.contains(y) <==> s1.contains(y) by {
                    if s1.contains(y) {
                        let m = choose|m: int| 0 <= m < s1.len() && s1[m] == y;
                        assert(s0[m + 1] == y);
                        if y == dep {
                            lemma_ascending_distinct(deps@, k as int, k + 1 + m);
                        }
                    }
                    if s0.contains(y) && y != dep {
                        let m = choose|m: int| 0 <= m < s0.len() && s0[m] == y;
                        assert(m != 0);
                        assert(s1[m - 1] == y);
                    }
                }
                let p0 = deps@.subrange(0, k as int);
                let p1 = deps@.subrange(0, k + 1);
                assert forall|x: NodeId| g.valid(x) && x != id implies {
                    &&& same_payload(#[trigger] self.rec(x), g.rec(x))
                    &&& self.rec(x).dependencies == g.rec(x).dependencies
                    &&& ascending(self.rec(x).dependents@)
                    &&& forall|y: NodeId| #[trigger] self.rec(x).dependents@.contains(y)
                        <==> (g.rec(x).dependents@.contains(y) && !(y == id && p1.contains(x)))
                } by {
                    assert(p1.contains(x) <==> (p0.contains(x) || x == dep)) by {
                        if p1.contains(x) {
                            let m = choose|m: int| 0 <= m < p1.len() && p1[m] == x;
                            if m < k {
                                assert(p0[m] == x);
                            }
                        }
                        if p0.contains(x) {
                            let m = choose|m: int| 0 <= m < p0.len() && p0[m] == x;
                            assert(p1[m] == x);
                        }
                        if x == dep {
                            assert(p1[k as int] == x);
                        }
                    }
                }
            }
            k = k + 1;
        }
        proof {
            assert(deps@.subrange(0, deps@.len() as int) =~= deps@);
            if self.rec(id).dependencies@.len() > 0 {
                assert(self.rec(id).dependencies@.contains(self.rec(id).dependencies@[0]));
                assert(deps@.subrange(k as int, deps@.len() as int) =~= Seq::<NodeId>::empty());
            }
            assert(depents@.subrange(0, 0) =~= Seq::<NodeId>::empty());
            assert forall|x: NodeId| g.valid(x) && x != id implies {
                &&& same_payload(#[trigger] self.rec(x), g.rec(x))
                &&& ascending(self.rec(x).dependents@)
                &&& ascending(self.rec(x).dependencies@)
                &&& forall|y: NodeId| #[trigger] self.rec(x).dependents@.contains(y)
                    <==> (g.rec(x).dependents@.contains(y) && y != id)
                &&& forall|y: NodeId| #[trigger] self.rec(x).dependencies@.contains(y)
                    <==> (g.rec(x).dependencies@.contains(y) && !(y == id && depents@.subrange(0, 0).contains(x)))
            } by {
                assert(g.live_at(x.index as int));
                assert(g.rec_at(x.index as int).id == x);
                if g.rec(x).dependents@.contains(id) {
                    let m = choose|m: int| 0 <= m < g.rec(x).dependents@.len() && g.rec(x).dependents@[m] == id;
                    assert(g.rec(id).dependencies@.contains(x));
                    assert(deps@.contains(x));
                }
            }
        }
        let mut k: usize = 0;
        assert(depents@.subrange(0, depents@.len() as int) =~= depents@);
        while k < depents.len()
            invariant
                self.wf(),
                g.wf(),
                g.valid(id),
                i == id.index,
                deps@ == g.rec(id).dependencies@,
                depents@ == g.rec(id).dependents@,
                k <= depents@.len(),
                forall|x: NodeId| #[trigger] self.valid(x) == g.valid(x),
                self.slots@.len() == g.slots@.len(),
                forall|j: int| 0 <= j < g.slot_count() ==> #[trigger] self.generation_at(j) == g.generation_at(j),
                self.free@ == g.free@,
                self.limits == g.limits,
                self.live_total() == g.live_total(),
                self.edge_count + deps@.len() + k == g.edge_count,
                same_payload(self.rec(id), g.rec(id)),
                self.rec(id).dependencies@.len() == 0,
                ascending(self.rec(id).dependents@),
                forall|y: NodeId| #[trigger] self.rec(id).dependents@.contains(y)
                    <==> (depents@.subrange(k as int, depents@.len() as int).contains(y)),
                forall|x: NodeId| g.valid(x) && x != id ==> {
                    &&& same_payload(#[trigger] self.rec(x), g.rec(x))
                    &&& ascending(self.rec(x).dependents@)
                    &&& ascending(self.rec(x).dependencies@)
                    &&& forall|y: NodeId| #[trigger] self.rec(x).dependents@.contains(y)
                        <==> (g.rec(x).dependents@.contains(y) && y != id)
                    &&& forall|y: NodeId| #[trigger] self.rec(x).dependencies@.contains(y)
                        <==> (g.rec(x).dependencies@.contains(y) && !(y == id && depents@.subrange(0, k as int).contains(x)))
                },
            decreases depents@.len() - k,
        {
            let dn = depents[k];
            proof {
                assert(g.rec(id).dependents@.contains(dn));
                assert(g.valid(dn));
                assert(g.rec(dn).dependencies@.contains(g.rec(id).id));
                assert(dn != id) by {
                    if dn == id {
                        let m = choose|m: int| 0 <= m < g.rec(id).dependencies@.len() && g.rec(id).dependencies@[m] == id;
                        assert(g.rank@[id.index as int] < g.rank@[id.index as int]);
                    }
                }
                assert(depents@.subrange(k as int, depents@.len() as int).contains(dn)) by {
                    assert(depents@.subrange(k as int, depents@.len() as int)[0] == dn);
                }
                assert(!depents@.subrange(0, k as int).contains(dn)) by {
                    if depents@.subrange(0, k as int).contains(dn) {
                        let m = choose|m: int| 0 <= m < k && depents@.subrange(0, k as int)[m] == dn;
                        lemma_ascending_distinct(depents@, m, k as int);
                    }
                }
                assert(self.rec(dn).dependencies@.contains(id));
            }
            let rr = self.remove_dependency(dn, id);
            proof {
                let s0 = depents@.subrange(k as int, depents@.len() as int);
                let s1 = depents@.subrange(k + 1, depents@.len() as int);
                assert forall|y: NodeId| #[trigger] self.rec(id).dependents@.contains(y) <==> s1.contains(y) by {
                    if s1.contains(y) {
                        let m = choose|m: int| 0 <= m < s1.len() && s1[m] == y;
                        assert(s0[m + 1] == y);
                        if y == dn {
                            lemma_ascending_distinct(depents@, k as int, k + 1 + m);
                        }
                    }
                    if s0.contains(y) && y != dn {
                        let m = choose|m: int| 0 <= m < s0.len() && s0[m] == y;
                        assert(m != 0);
                        assert(s1[m - 1] == y);
                    }
                }
                let p0 = depents@.subrange(0, k as int);
                let p1 = depents@.subrange(0, k + 1);
                assert forall|x: NodeId| g.valid(x) && x != id implies {
                    &&& same_payload(#[trigger] self.rec(x), g.rec(x))
                    &&& ascending(self.rec(x).dependents@)
                    &&& ascending(self.rec(x).dependencies@)
                    &&& forall|y: NodeId| #[trigger] self.rec(x).dependents@.contains(y)
                        <==> (g.rec(x).dependents@.contains(y) && y != id)
                    &&& forall|y: NodeId| #[trigger] self.rec(x).dependencies@.contains(y)
                        <==> (g.rec(x).dependencies@.contains(y) && !(y == id && p1.contains(x)))
                } by {
                    assert(p1.contains(x) <==> (p0.contains(x) || x == dn)) by {
                        if p1.contains(x) {
                            let m = choose|m: int| 0 <= m < p1.len() && p1[m] == x;
                            if m < k {
                                assert(p0[m] == x);
                            }
                        }
                        if p0.contains(x) {
                            let m = choose|m: int| 0 <= m < p0.len() && p0[m] == x;
                            assert(p1[m] == x);
                        }
                        if x == dn {
                            assert(p1[k as int] == x);
                        }
                    }
                }
            }
            k = k + 1;
        }
        let ghost before = *self;
        proof {
            assert(depents@.subrange(0, depents@.len() as int) =~= depents@);
            if self.rec(id).dependents@.len() > 0 {
                assert(self.rec(id).dependents@.contains(self.rec(id).dependents@[0]));
                assert(depents@.subrange(k as int, depents@.len() as int) =~= Seq::<NodeId>::empty());
            }
            assert(self.valid(id));
            assert(self.live_at(i as int));
            assert forall|x: NodeId| g.valid(x) && x != id implies {
                &&& !(#[trigger] before.rec(x)).dependents@.contains(id)
                &&& !before.rec(x).dependencies@.contains(id)
            } by {
                assert(g.live_at(x.index as int));
                assert(g.rec_at(x.index as int).id == x);
                if g.rec(x).dependencies@.contains(id) {
                    let m = choose|m: int| 0 <= m < g.rec(x).dependencies@.len() && g.rec(x).dependencies@[m] == id;
                    assert(g.rec(id).dependents@.contains(x));
                    assert(depents@.contains(x));
                }
            }
        }
        let taken = self.slots[i].data.take().unwrap();
        self.slots[i].live = false;
        self.free.push(id.index);
        proof {
            lemma_count_live_update(before.slots@, i as int, self.slots@[i as int]);
            assert(self.slots@ =~= before.slots@.update(i as int, self.slots@[i as int]));
            assert(deps_len(before.slots@[i as int]) == 0);
            self.lemma_wf_after_free(before, g, id);
            assert(same_payload(taken, g.rec(id)));
            assert(taken.dependencies@.len() == 0);
            assert(taken.dependents@.len() == 0);
            assert(forall|x: NodeId| #[trigger] self.valid(x) == (g.valid(x) && x.index != id.index));
            assert forall|x: NodeId| g.valid(x) && x != id implies {
                &&& same_payload(#[trigger] self.rec(x), g.rec(x))
                &&& ascending(self.rec(x).dependencies@)
                &&& ascending(self.rec(x).dependents@)
                &&& forall|y: NodeId| #[trigger] self.rec(x).dependencies@.contains(y)
                    <==> (g.rec(x).dependencies@.contains(y) && y != id)
                &&& forall|y: NodeId| #[trigger] self.rec(x).dependents@.contains(y)
                    <==> (g.rec(x).dependents@.contains(y) && y != id)
            } by {
                assert(x.index != id.index);
                assert(self.slots@[x.index as int] == before.slots@[x.index as int]);
                assert(before.rec(x) == self.rec(x));
                if g.rec(x).dependencies@.contains(id) {
                    let m = choose|m: int| 0 <= m < g.rec(x).dependencies@.len() && g.rec(x).dependencies@[m] == id;
                    assert(g.live_at(x.index as int));
                    assert(g.rec_at(x.index as int).id == x);
                    assert(g.rec(id).dependents@.contains(x));
                    assert(depents@.contains(x));
                }
            }
            assert(self.edge_total() + g.rec(id).dependencies@.len() + g.rec(id).dependents@.len() == g.edge_total());
            assert(self.live_total() + 1 == g.live_total());
            assert(self.free_list() == g.free_list().push(id.index));
            assert forall|j: int| 0 <= j < g.slot_count() implies #[trigger] self.generation_at(j) == g.generation_at(j) by {
                assert(before.generation_at(j) == g.generation_at(j));
            }
        }
        Ok(taken)
    }

    proof fn lemma_wf_after_free(&self, before: Graph, g: Graph, id: NodeId)
        requires
            before.wf(),
            g.wf(),
            g.valid(id),
            before.valid(id),
            forall|x: NodeId| #[trigger] before.valid(x) == g.valid(x),
            before.rec(id).dependencies@.len() == 0,
            self.slots@.len() == before.slots@.len(),
            forall|j: int| 0 <= j < before.slots@.len() && j != id.index ==> self.slots@[j] == before.slots@[j],
            !self.slots@[id.index as int].live,
            self.slots@[id.index as int].data is None,
            self.slots@[id.index as int].generation == before.slots@[id.index as int].generation,
            self.free@ == before.free@.push(id.index),
            self.limits == before.limits,
            self.edge_count == before.edge_count,
            self.rank == before.rank,
            count_live(self.slots@) + 1 == count_live(before.slots@),
            sum_deps(self.slots@) == sum_deps(before.slots@),
            forall|x: NodeId| g.valid(x) && x != id ==> {
                &&& !(#[trigger] before.rec(x)).dependents@.contains(id)
                &&& !before.rec(x).dependencies@.contains(id)
            },
        ensures
            self.wf(),
            forall|x: NodeId| #[trigger] self.valid(x) == (before.valid(x) && x.index != id.index),
    {
        let j = id.index as int;
        assert forall|x: NodeId| #[trigger] self.valid(x) == (before.valid(x) && x.index != id.index) by {
            if 0 <= x.index < self.slots@.len() && x.index != id.index {
                assert(self.slots@[x.index as int] == before.slots@[x.index as int]);
            }
        }
        assert forall|i: int| #[trigger] self.live_at(i) implies before.live_at(i) && i != j && self.slots@[i] == before.slots@[i] by {}
        assert forall|i: int| 0 <= i < self.slots@.len() implies (#[trigger] self.slots@[i]).live == (self.slots@[i].data is Some) by {
            if i != j {
                assert(before.slots@[i].live == (before.slots@[i].data is Some));
            }
        }
        assert forall|k: int| 0 <= k < self.free@.len() implies (#[trigger] self.free@[k]) < self.slots@.len()
            && !self.slots@[self.free@[k] as int].live by {
            if k < before.free@.len() {
                assert(before.free@[k] == self.free@[k]);
                assert(!before.live_at(before.free@[k] as int));
            }
        }
        assert forall|a: int, b: int| 0 <= a < b < self.free@.len() implies self.free@[a] != self.free@[b] by {
            if b == before.free@.len() {
                assert(!before.live_at(before.free@[a] as int));
                assert(before.live_at(j));
            } else {
                assert(before.free@[a] == self.free@[a]);
                assert(before.free@[b] == self.free@[b]);
            }
        }
        assert(self.wf_slots());
        assert forall|i: int, k: int| #[trigger] self.live_at(i) && 0 <= k < self.rec_at(i).dependencies@.len() implies {
            let d = #[trigger] self.rec_at(i).dependencies@[k];
            &&& self.valid(d)
            &&& self.rec(d).dependents@.contains(self.rec_at(i).id)
            &&& self.rank@[d.index as int] < self.rank@[i]
        } by {
            let d = self.rec_at(i).dependencies@[k];
            assert(before.live_at(i));
            assert(before.valid(d));
            let x = before.rec_at(i).id;
            assert(g.valid(x));
            assert(x != id);
            assert(before.rec(x).dependencies@.contains(d));
            assert(d != id);
            assert(d.index != id.index);
            assert(self.slots@[d.index as int] == before.slots@[d.index as int]);
        }
        assert forall|i: int, k: int| #[trigger] self.live_at(i) && 0 <= k < self.rec_at(i).dependents@.len() implies {
            let u = #[trigger] self.rec_at(i).dependents@[k];
            &&& self.valid(u)
            &&& self.rec(u).dependencies@.contains(self.rec_at(i).id)
        } by {
            let u = self.rec_at(i).dependents@[k];
            assert(before.live_at(i));
            assert(before.valid(u));
            let x = before.rec_at(i).id;
            assert(g.valid(x));
            assert(x != id);
            assert(before.rec(x).dependents@.contains(u));
            assert(u != id);
            assert(u.index != id.index);
            assert(self.slots@[u.index as int] == before.slots@[u.index as int]);
        }
        assert(self.wf_links());
    }
}

impl Graph {
    /// Mutable access to the record of a live node. Changing its id or edge
    /// lists by hand breaks the graph's consistency; the status, version,
    /// fingerprints, timings and metadata are free to change.
    pub fn node_mut(&mut self, id: NodeId) -> (r: Result<&mut NodeRecord, Error>)
        requires
            old(self).wf(),
        ensures
            r is Ok <==> old(self).valid(id),
            r matches Err(e) ==> e == old(self).lookup_error(id) && *final(self) == *old(self),
            r matches Ok(rec) ==> {
                &&& *rec == old(self).rec(id)
                &&& final(self).rec(id) == *final(rec)
                &&& forall|x: NodeId| #[trigger] final(self).valid(x) == old(self).valid(x)
                &&& forall|x: NodeId| old(self).valid(x) && x != id ==> #[trigger] final(self).rec(x) == old(self).rec(x)
                &&& final(self).edge_total() == old(self).edge_total()
                &&& final(self).limits_of() == old(self).limits_of()
                &&& final(self).free_list() == old(self).free_list()
            },
    {
        self.check(id)?;
        let i = id.index as usize;
        match self.slots[i].data.as_mut() {
            Some(rec) => Ok(rec),
            None => Err(Error::UnknownNode(id)),
        }
    }
}

proof fn lemma_sum_deps_ge(s: Seq<Slot>, i: int)
    requires
        0 <= i < s.len(),
    ensures
        sum_deps(s) >= deps_len(s[i]),
    decreases s.len(),
{
    if i < s.len() - 1 {
        lemma_sum_deps_ge(s.drop_last(), i);
    }
}

proof fn lemma_count_live_one(s: Seq<Slot>, i: int)
    requires
        0 <= i < s.len(),
        s[i].live,
    ensures
        count_live(s) >= 1,
    decreases s.len(),
{
    if i < s.len() - 1 {
        lemma_count_live_one(s.drop_last(), i);
    }
}

proof fn lemma_count_live_prefix(s: Seq<Slot>, k: int)
    requires
        0 <= k <= s.len(),
    ensures
        count_live(s.subrange(0, k)) <= count_live(s),
    decreases s.len() - k,
{
    if k < s.len() {
        lemma_count_live_prefix(s, k + 1);
        assert(s.subrange(0, k + 1).drop_last() =~= s.subrange(0, k));
    } else {
        assert(s.subrange(0, k) =~= s);
    }
}


/// Everything of a record but its status and last invalidation.
pub open spec fn same_identity(a: NodeRecord, b: NodeRecord) -> bool {
    &&& a.id == b.id
    &&& a.name == b.name
    &&& a.kind == b.kind
    &&& a.version == b.version
    &&& a.input_fingerprint == b.input_fingerprint
    &&& a.output_fingerprint == b.output_fingerprint
    &&& a.dependencies == b.dependencies
    &&& a.dependents == b.dependents
    &&& a.last_compute_nanos == b.last_compute_nanos
    &&& a.last_recompute_count == b.last_recompute_count
    &&& a.metadata == b.metadata
}

/// The part of a node record its computations change.
#[derive(Debug)]
pub struct NodeState {
    pub status: NodeStatus,
    pub version: Version,
    pub input_fingerprint: Option<Fingerprint>,
    pub output_fingerprint: Option<Fingerprint>,
    pub last_invalidation: Option<InvalidationReason>,
    pub last_compute_nanos: u128,
    pub last_recompute_count: u64,
}

/// `st` is what `rec` records of its computations (reasons compared by
/// their text).
pub open spec fn state_of(rec: NodeRecord, st: NodeState) -> bool {
    &&& st.status == rec.status
    &&& st.version == rec.version
    &&& st.input_fingerprint == rec.input_fingerprint
    &&& st.output_fingerprint == rec.output_fingerprint
    &&& match (st.last_invalidation, rec.last_invalidation) {
        (Some(a), Some(b)) => a.same(b),
        (None, None) => true,
        _ => false,
    }
    &&& st.last_compute_nanos == rec.last_compute_nanos
    &&& st.last_recompute_count == rec.last_recompute_count
}

/// `rec` with its computation state replaced by `st`.
pub open spec fn with_state(rec: NodeRecord, st: NodeState) -> NodeRecord {
    NodeRecord {
        status: st.status,
        version: st.version,
        input_fingerprint: st.input_fingerprint,
        output_fingerprint: st.output_fingerprint,
        last_invalidation: st.last_invalidation,
        last_compute_nanos: st.last_compute_nanos,
        last_recompute_count: st.last_recompute_count,
        ..rec
    }
}

/// Same id, name, kind, edges and metadata.
pub open spec fn same_identity_edges(a: NodeRecord, b: NodeRecord) -> bool {
    &&& a.id == b.id
    &&& a.name == b.name
    &&& a.kind == b.kind
    &&& a.dependencies == b.dependencies
    &&& a.dependents == b.dependents
    &&& a.metadata == b.metadata
}

/// `new` is `old` marked by an invalidation for `reason`: a running node
/// keeps its status, any other becomes dirty, and the reason is recorded.
pub open spec fn is_marked(new: NodeRecord, old: NodeRecord, reason: InvalidationReason) -> bool {
    &&& same_identity(new, old)
    &&& new.status == (if old.status == NodeStatus::Computing { NodeStatus::Computing } else { NodeStatus::Dirty })
    &&& new.last_invalidation matches Some(r) && r.same(reason)
}

/// Message of an invalidation that reaches more nodes than allowed.
pub open spec fn msg_invalidation_limit(limit: nat) -> Seq<char> {
    "invalidation exceeded "@ + decimal(limit) + " nodes"@
}

/// `after` is `before` with the nodes at the slots of `marked` marked for
/// `reason`, and nothing else changed.
pub open spec fn marks_exactly(before: Graph, after: Graph, marked: Set<int>, reason: InvalidationReason) -> bool {
    &&& forall|x: NodeId| #[trigger] after.valid(x) == before.valid(x)
    &&& forall|x: NodeId| #![trigger after.rec(x)] before.valid(x) ==> if marked.contains(x.index as int) {
        is_marked(after.rec(x), before.rec(x), reason)
    } else {
        after.rec(x) == before.rec(x)
    }
    &&& after.edge_total() == before.edge_total()
    &&& after.live_total() == before.live_total()
    &&& after.limits_of() == before.limits_of()
    &&& after.free_list() == before.free_list()
    &&& after.slot_count() == before.slot_count()
}

/// What an invalidation from `seed` returns and does to the graph.
pub open spec fn invalidation_outcome(
    before: Graph,
    after: Graph,
    seed: NodeId,
    include_seed: bool,
    mode: InvalidationMode,
    reason: InvalidationReason,
    r: Result<InvalidationReport, Error>,
) -> bool {
    let marked = before.invalidation_set(seed, include_seed, mode);
    let limit = before.limits_of().max_invalidation_nodes;
    let refused_seed = match mode {
        InvalidationMode::Lazy => include_seed && !before.valid(seed),
        InvalidationMode::Eager => !before.valid(seed),
    };
    let early_limit = mode == InvalidationMode::Eager && include_seed && limit == 0;
    &&& after.wf()
    &&& marked.finite()
    &&& (r is Err <==> (refused_seed || (mode == InvalidationMode::Eager && marked.len() > limit)))
    &&& r matches Err(e) ==> if refused_seed && !early_limit {
        e == before.lookup_error(seed) && after == before
    } else {
        &&& e.is_limit(msg_invalidation_limit(limit as nat))
        &&& exists|m: Set<int>| m.subset_of(marked) && #[trigger] marks_exactly(before, after, m, reason)
    }
    &&& r matches Ok(rep) ==> {
        &&& marks_exactly(before, after, marked, reason)
        &&& rep.mode@ == mode_label(mode)
        &&& (rep.seed matches Some(s) ==> before.valid(seed) && s@ == before.rec(seed).name@)
        &&& (rep.seed is None ==> !before.valid(seed))
        &&& rep.fanout == rep.invalidated@.len()
        &&& rep.fanout == marked.len()
        &&& forall|k: int| 0 <= k < rep.invalidated@.len() ==>
            before.valid(#[trigger] rep.invalidated@[k]) && marked.contains(rep.invalidated@[k].index as int)
        &&& forall|a: int, b: int| 0 <= a < b < rep.invalidated@.len() ==>
            (#[trigger] rep.invalidated@[a]).index != (#[trigger] rep.invalidated@[b]).index
    }
}

proof fn lemma_counts_same_shape(s: Seq<Slot>, t: Seq<Slot>)
    requires
        s.len() == t.len(),
        forall|j: int| 0 <= j < s.len() ==> (#[trigger] s[j]).live == t[j].live && deps_len(s[j]) == deps_len(t[j]),
    ensures
        count_live(s) == count_live(t),
        sum_deps(s) == sum_deps(t),
    decreases s.len(),
{
    if s.len() > 0 {
        lemma_counts_same_shape(s.drop_last(), t.drop_last());
        assert(s.last() == s[s.len() - 1]);
    }
}

impl Graph {
    /// `self` has the slots, ids and edges of `g`; only statuses, reasons
    /// and other payload may differ.
    spec fn same_shape(&self, g: Graph) -> bool {
        &&& self.slots@.len() == g.slots@.len()
        &&& forall|j: int| 0 <= j < self.slots@.len() ==> {
            &&& (#[trigger] self.slots@[j]).live == g.slots@[j].live
            &&& self.slots@[j].generation == g.slots@[j].generation
            &&& (self.slots@[j].data is Some) == (g.slots@[j].data is Some)
        }
        &&& forall|j: int| #[trigger] self.live_at(j) ==> {
            &&& self.rec_at(j).id == g.rec_at(j).id
            &&& self.rec_at(j).dependencies == g.rec_at(j).dependencies
            &&& self.rec_at(j).dependents == g.rec_at(j).dependents
        }
        &&& self.free == g.free
        &&& self.limits == g.limits
        &&& self.edge_count == g.edge_count
        &&& self.rank == g.rank
    }

    proof fn lemma_same_shape(g: Graph, h: Graph)
        requires
            g.wf(),
            h.same_shape(g),
        ensures
            h.wf(),
            count_live(h.slots@) == count_live(g.slots@),
            forall|j: int| #[trigger] h.live_at(j) == g.live_at(j),
            forall|x: NodeId| #[trigger] h.valid(x) == g.valid(x),
            forall|i: int, j: int| #[trigger] h.succ(i, j) == g.succ(i, j),
    {
        assert forall|j: int| #[trigger] h.live_at(j) == g.live_at(j) by {
            if 0 <= j < h.slots@.len() {
                assert(h.slots@[j].live == g.slots@[j].live);
            }
        }
        assert forall|x: NodeId| #[trigger] h.valid(x) == g.valid(x) by {
            assert(h.live_at(x.index as int) == g.live_at(x.index as int));
            if h.live_at(x.index as int) {
                assert(h.slots@[x.index as int].generation == g.slots@[x.index as int].generation);
            }
        }
        assert forall|j: int| 0 <= j < h.slots@.len() implies
            (#[trigger] h.slots@[j]).live == g.slots@[j].live && deps_len(h.slots@[j]) == deps_len(g.slots@[j]) by {
            if h.slots@[j].live {
                assert(h.live_at(j));
            }
        }
        lemma_counts_same_shape(h.slots@, g.slots@);
        assert forall|i: int, j: int| #[trigger] h.succ(i, j) == g.succ(i, j) by {
            assert(h.live_at(i) == g.live_at(i));
            assert(h.live_at(j) == g.live_at(j));
        }
        assert(h.wf_slots()) by {
            assert forall|i: int| 0 <= i < h.slots@.len() implies (#[trigger] h.slots@[i]).live == (h.slots@[i].data is Some) by {
                assert(g.slots@[i].live == (g.slots@[i].data is Some));
            }
            assert forall|i: int| #[trigger] h.live_at(i) implies h.rec_at(i).id == NodeId { index: i as u32, generation: h.slots@[i].generation } by {
                assert(g.live_at(i));
            }
            assert forall|k: int| 0 <= k < h.free@.len() implies (#[trigger] h.free@[k]) < h.slots@.len() && !h.slots@[h.free@[k] as int].live by {
                assert(g.free@[k] < g.slots@.len());
            }
        }
        assert(h.wf_links()) by {
            assert forall|i: int| #[trigger] h.live_at(i) implies ascending(h.rec_at(i).dependencies@) && ascending(h.rec_at(i).dependents@) by {
                assert(g.live_at(i));
            }
            assert forall|i: int, k: int| #[trigger] h.live_at(i) && 0 <= k < h.rec_at(i).dependencies@.len() implies {
                let d = #[trigger] h.rec_at(i).dependencies@[k];
                &&& h.valid(d)
                &&& h.rec(d).dependents@.contains(h.rec_at(i).id)
                &&& h.rank@[d.index as int] < h.rank@[i]
            } by {
                assert(g.live_at(i));
                let d = g.rec_at(i).dependencies@[k];
                assert(g.valid(d));
                assert(h.valid(d));
                assert(h.live_at(d.index as int));
            }
            assert forall|j: int, k: int| #[trigger] h.live_at(j) && 0 <= k < h.rec_at(j).dependents@.len() implies {
                let u = #[trigger] h.rec_at(j).dependents@[k];
                &&& h.valid(u)
                &&& h.rec(u).dependencies@.contains(h.rec_at(j).id)
            } by {
                assert(g.live_at(j));
                let u = g.rec_at(j).dependents@[k];
                assert(g.valid(u));
                assert(h.valid(u));
                assert(h.live_at(u.index as int));
            }
        }
    }

    /// Mark the live node at slot `i`.
    fn mark_at(&mut self, i: usize, reason: &InvalidationReason)
        requires
            old(self).wf(),
            old(self).live_at(i as int),
        ensures
            final(self).wf(),
            final(self).same_shape(*old(self)),
            forall|j: int| 0 <= j < final(self).slots@.len() && j != i ==> #[trigger] final(self).slots@[j] == old(self).slots@[j],
            final(self).live_at(i as int),
            is_marked(final(self).rec_at(i as int), old(self).rec_at(i as int), *reason),
    {
        let ghost g = *self;
        let mut rec = self.slots[i].data.take().unwrap();
        if rec.status == NodeStatus::Computing {
        } else {
            rec.status = NodeStatus::Dirty;
        }
        rec.last_invalidation = Some(reason.duplicate());
        self.slots[i].data = Some(rec);
        proof {
            assert(self.same_shape(g)) by {
                assert forall|j: int| #[trigger] self.live_at(j) implies {
                    &&& self.rec_at(j).id == g.rec_at(j).id
                    &&& self.rec_at(j).dependencies == g.rec_at(j).dependencies
                    &&& self.rec_at(j).dependents == g.rec_at(j).dependents
                } by {
                    if j != i as int {
                        assert(self.slots@[j] == g.slots@[j]);
                    }
                }
            }
            Graph::lemma_same_shape(g, *self);
        }
    }

    /// What a live node records of its computations.
    pub fn state(&self, id: NodeId) -> (r: Result<NodeState, Error>)
        requires
            self.wf(),
        ensures
            r is Ok <==> self.valid(id),
            r matches Err(e) ==> e == self.lookup_error(id),
            r matches Ok(st) ==> state_of(self.rec(id), st),
    {
        self.check(id)?;
        let i = id.index as usize;
        match &self.slots[i].data {
            Some(rec) => Ok(NodeState {
                status: rec.status,
                version: rec.version,
                input_fingerprint: rec.input_fingerprint,
                output_fingerprint: rec.output_fingerprint,
                last_invalidation: match &rec.last_invalidation {
                    Some(reason) => Some(reason.duplicate()),
                    None => None,
                },
                last_compute_nanos: rec.last_compute_nanos,
                last_recompute_count: rec.last_recompute_count,
            }),
            None => Err(Error::UnknownNode(id)),
        }
    }

    /// Replace what a live node records of its computations; its identity,
    /// edges and metadata stay, and so does every other node.
    pub fn set_state(&mut self, id: NodeId, st: NodeState) -> (r: Result<(), Error>)
        requires
            old(self).wf(),
        ensures
            final(self).wf(),
            r is Ok <==> old(self).valid(id),
            r matches Err(e) ==> e == old(self).lookup_error(id) && *final(self) == *old(self),
            r is Ok ==> final(self).rec(id) == with_state(old(self).rec(id), st),
            forall|x: NodeId| #[trigger] final(self).valid(x) == old(self).valid(x),
            forall|x: NodeId| old(self).valid(x) && x != id ==> #[trigger] final(self).rec(x) == old(self).rec(x),
            forall|x: NodeId| old(self).valid(x) ==> same_identity_edges(#[trigger] final(self).rec(x), old(self).rec(x)),
            final(self).edge_total() == old(self).edge_total(),
            final(self).limits_of() == old(self).limits_of(),
            final(self).free_list() == old(self).free_list(),
            final(self).slot_count() == old(self).slot_count(),
            final(self).live_total() == old(self).live_total(),
    {
        self.check(id)?;
        let ghost g = *self;
        let i = id.index as usize;
        let mut rec = self.slots[i].data.take().unwrap();
        rec.status = st.status;
        rec.version = st.version;
        rec.input_fingerprint = st.input_fingerprint;
        rec.output_fingerprint = st.output_fingerprint;
        rec.last_invalidation = st.last_invalidation;
        rec.last_compute_nanos = st.last_compute_nanos;
        rec.last_recompute_count = st.last_recompute_count;
        self.slots[i].data = Some(rec);
        proof {
            assert(self.same_shape(g)) by {
                assert forall|j: int| #[trigger] self.live_at(j) implies {
                    &&& self.rec_at(j).id == g.rec_at(j).id
                    &&& self.rec_at(j).dependencies == g.rec_at(j).dependencies
                    &&& self.rec_at(j).dependents == g.rec_at(j).dependents
                } by {
                    if j != i as int {
                        assert(self.slots@[j] == g.slots@[j]);
                    }
                }
            }
            Graph::lemma_same_shape(g, *self);
            assert forall|x: NodeId| g.valid(x) && x != id implies #[trigger] self.rec(x) == g.rec(x) by {
                if x.index != id.index {
                    assert(self.slots@[x.index as int] == g.slots@[x.index as int]);
                }
            }
            assert forall|x: NodeId| g.valid(x) implies same_identity_edges(#[trigger] self.rec(x), g.rec(x)) by {
                if x.index != id.index {
                    assert(self.slots@[x.index as int] == g.slots@[x.index as int]);
                }
            }
            assert(self.rec(id) =~= with_state(g.rec(id), st));
        }
        Ok(())
    }

    /// Slot indices of the live nodes an eager invalidation from `seed`
    /// reaches: those downstream of it, and the seed itself when included.
    pub closed spec fn reach_set(&self, seed: NodeId, include_seed: bool) -> Set<int> {
        Set::new(|j: int| self.live_at(j) && exists|p: Seq<int>| #[trigger] self.is_walk(p) && p[0] == seed.index && p.last() == j && (include_seed || p.len() >= 2))
    }

    /// Slot indices of the nodes an invalidation marks.
    pub closed spec fn invalidation_set(&self, seed: NodeId, include_seed: bool, mode: InvalidationMode) -> Set<int> {
        match mode {
            InvalidationMode::Eager => self.reach_set(seed, include_seed),
            InvalidationMode::Lazy => if include_seed && self.valid(seed) { set![seed.index as int] } else { Set::empty() },
        }
    }

    proof fn lemma_walk_step(&self, p: Seq<int>, k: int)
        requires
            self.is_walk(p),
            0 <= k < p.len() - 1,
        ensures
            self.succ(p[k], p[k + 1]),
    {
    }

    proof fn lemma_reach_set_finite(&self, seed: NodeId, include_seed: bool)
        ensures
            self.reach_set(seed, include_seed).finite(),
            self.reach_set(seed, include_seed).subset_of(set_int_range(0, self.slots@.len() as int)),
    {
        lemma_int_range(0, self.slots@.len() as int);
        lemma_len_subset(self.reach_set(seed, include_seed), set_int_range(0, self.slots@.len() as int));
    }
}


impl Graph {
    /// `self` is `g` with the slots in `vis` marked for `reason`.
    spec fn marked_state(&self, g: Graph, vis: Set<int>, reason: InvalidationReason) -> bool {
        &&& self.same_shape(g)
        &&& forall|j: int| 0 <= j < self.slots@.len() && !vis.contains(j) ==> #[trigger] self.slots@[j] == g.slots@[j]
        &&& forall|j: int| 0 <= j < self.slots@.len() && vis.contains(j) ==>
            g.live_at(j) && is_marked(#[trigger] self.rec_at(j), g.rec_at(j), reason)
    }

    proof fn lemma_marked_state_marks(g: Graph, h: Graph, vis: Set<int>, reason: InvalidationReason)
        requires
            g.wf(),
            h.marked_state(g, vis, reason),
        ensures
            h.wf(),
            marks_exactly(g, h, vis, reason),
    {
        Graph::lemma_same_shape(g, h);
        assert forall|x: NodeId| #![trigger h.rec(x)] g.valid(x) implies if vis.contains(x.index as int) {
            is_marked(h.rec(x), g.rec(x), reason)
        } else {
            h.rec(x) == g.rec(x)
        } by {
            let j = x.index as int;
            if !vis.contains(j) {
                assert(h.slots@[j] == g.slots@[j]);
            } else {
                assert(is_marked(h.rec_at(j), g.rec_at(j), reason));
            }
        }
    }

    /// Invalidate from `seed`; see `invalidation_outcome` for what it returns
    /// and does.
    pub fn invalidate(
        &mut self,
        seed: NodeId,
        include_seed: bool,
        mode: InvalidationMode,
        reason: InvalidationReason,
    ) -> (r: Result<InvalidationReport, Error>)
        requires
            old(self).wf(),
        ensures
            invalidation_outcome(*old(self), *final(self), seed, include_seed, mode, reason, r),
    {
        let ghost g = *self;
        proof {
            self.lemma_reach_set_finite(seed, include_seed);
            assert(marks_exactly(g, g, Set::empty(), reason));
        }
        let seed_name: Option<String> = match self.node(seed) {
            Ok(rec) => Some(rec.name.clone()),
            Err(_) => None,
        };
        let label = match mode {
            InvalidationMode::Eager => owned("Eager"),
            InvalidationMode::Lazy => owned("Lazy"),
        };
        match mode {
            InvalidationMode::Lazy => {
                let mut invalidated: Vec<NodeId> = Vec::new();
                if include_seed {
                    self.check(seed)?;
                    let i = seed.index as usize;
                    self.mark_at(i, &reason);
                    invalidated.push(seed);
                    proof {
                        let vis = set![i as int];
                        assert(self.marked_state(g, vis, reason)) by {
                            assert forall|j: int| 0 <= j < self.slots@.len() && !vis.contains(j) implies #[trigger] self.slots@[j] == g.slots@[j] by {
                                assert(j != i);
                            }
                        }
                        Graph::lemma_marked_state_marks(g, *self, vis, reason);
                        assert(vis.len() == 1) by {
                            assert(vis =~= Set::<int>::empty().insert(i as int));
                        }
                    }
                } else {
                    proof {
                        assert(marks_exactly(g, *self, Set::empty(), reason));
                    }
                }
                let fanout = invalidated.len();
                Ok(InvalidationReport { seed: seed_name, invalidated, fanout, mode: label })
            },
            InvalidationMode::Eager => {
                let limit = self.limits.max_invalidation_nodes;
                if include_seed && limit == 0 {
                    let mut m = owned("invalidation exceeded ");
                    append_decimal(&mut m, limit as u128);
                    append_str(&mut m, " nodes");
                    proof {
                        assert(m@ =~= msg_invalidation_limit(limit as nat));
                        if g.valid(seed) {
                            let p = seq![seed.index as int];
                            assert(g.is_walk(p));
                            assert(g.reach_set(seed, include_seed).contains(seed.index as int));
                            assert(g.reach_set(seed, include_seed).len() > 0);
                        }
                    }
                    return Err(Error::Limit(m));
                }
                self.check(seed)?;
                let invalidated = self.invalidate_eager(seed, include_seed, &reason)?;
                let fanout = invalidated.len();
                Ok(InvalidationReport { seed: seed_name, invalidated, fanout, mode: label })
            },
        }
    }

    fn invalidate_eager(&mut self, seed: NodeId, include_seed: bool, reason: &InvalidationReason) -> (r: Result<Vec<NodeId>, Error>)
        requires
            old(self).wf(),
            old(self).valid(seed),
            include_seed ==> old(self).limits.max_invalidation_nodes > 0,
        ensures
            final(self).wf(),
            old(self).reach_set(seed, include_seed).finite(),
            r is Err <==> old(self).reach_set(seed, include_seed).len() > old(self).limits.max_invalidation_nodes,
            r matches Err(e) ==> {
                &&& e.is_limit(msg_invalidation_limit(old(self).limits.max_invalidation_nodes as nat))
                &&& exists|m: Set<int>| m.subset_of(old(self).reach_set(seed, include_seed))
                    && #[trigger] marks_exactly(*old(self), *final(self), m, *reason)
            },
            r matches Ok(v) ==> {
                &&& marks_exactly(*old(self), *final(self), old(self).reach_set(seed, include_seed), *reason)
                &&& v@.len() == old(self).reach_set(seed, include_seed).len()
                &&& forall|k: int| 0 <= k < v@.len() ==>
                    old(self).valid(#[trigger] v@[k]) && old(self).reach_set(seed, include_seed).contains(v@[k].index as int)
                &&& forall|a: int, b: int| 0 <= a < b < v@.len() ==> (#[trigger] v@[a]).index != (#[trigger] v@[b]).index
            },
    {
        let ghost g0 = *self;
        let ghost rs = g0.reach_set(seed, include_seed);
        let ghost si = seed.index as int;
        proof {
            g0.lemma_reach_set_finite(seed, include_seed);
        }
        let n = self.slots.len();
        let limit = self.limits.max_invalidation_nodes;
        let mut seen: Vec<bool> = Vec::new();
        let mut k: usize = 0;
        while k < n
            invariant
                k <= n,
                seen@.len() == k,
                forall|x: int| 0 <= x < k ==> !(#[trigger] seen@[x]),
            decreases n - k,
        {
            seen.push(false);
            k = k + 1;
        }
        let mut work: Vec<NodeId> = Vec::new();
        proof {
            assert(g0.live_at(si));
        }
        if include_seed {
            work.push(seed);
            proof {
                assert(g0.is_walk(seq![si]));
                assert(rs.contains(si));
                assert(work@[0] == seed);
            }
        } else {
            let deps = &self.slots[seed.index as usize].data.as_ref().unwrap().dependents;
            let mut k: usize = 0;
            while k < deps.len()
                invariant
                    *self == g0,
                    g0.wf(),
                    g0.valid(seed),
                    si == seed.index,
                    rs == g0.reach_set(seed, include_seed),
                    !include_seed,
                    *deps == g0.rec_at(si).dependents,
                    k <= deps@.len(),
                    work@ == deps@.subrange(0, k as int),
                    forall|m: int| 0 <= m < work@.len() ==> g0.valid(#[trigger] work@[m]) && rs.contains(work@[m].index as int),
                decreases deps@.len() - k,
            {
                let u = deps[k];
                proof {
                    assert(g0.valid(u));
                    assert(g0.succ(si, u.index as int));
                    let p = seq![si, u.index as int];
                    assert(g0.is_walk(p));
                    assert(rs.contains(u.index as int));
                }
                work.push(u);
                assert(work@ =~= deps@.subrange(0, k + 1));
                k = k + 1;
            }
            proof {
                assert(work@ =~= deps@);
            }
        }
        let mut count: usize = 0;
        let mut invalidated: Vec<NodeId> = Vec::new();
        let ghost mut vis: Set<int> = Set::empty();
        while work.len() > 0
            invariant
                g0 == *old(self),
                g0.wf(),
                self.wf(),
                self.marked_state(g0, vis, *reason),
                n == g0.slots@.len(),
                seen@.len() == n,
                limit == g0.limits.max_invalidation_nodes,
                rs == g0.reach_set(seed, include_seed),
                rs.finite(),
                g0.valid(seed),
                si == seed.index,
                forall|i: int| #[trigger] vis.contains(i) <==> (0 <= i < n && seen@[i]),
                vis.finite(),
                vis.len() == count,
                count <= limit,
                vis.subset_of(rs),
                forall|m: int| 0 <= m < work@.len() ==> g0.valid(#[trigger] work@[m]) && rs.contains(work@[m].index as int),
                forall|i: int, j: int| 0 <= i < n && seen@[i] && #[trigger] g0.succ(i, j) ==>
                    (0 <= j < n && seen@[j]) || work@.contains(g0.rec_at(j).id),
                include_seed ==> seen@[si] || work@.contains(seed),
                !include_seed ==> forall|j: int| #[trigger] g0.succ(si, j) ==>
                    (0 <= j < n && seen@[j]) || work@.contains(g0.rec_at(j).id),
                invalidated@.len() == count,
                forall|m: int| 0 <= m < invalidated@.len() ==>
                    g0.valid(#[trigger] invalidated@[m]) && vis.contains(invalidated@[m].index as int),
                forall|a: int, b: int| 0 <= a < b < invalidated@.len() ==>
                    (#[trigger] invalidated@[a]).index != (#[trigger] invalidated@[b]).index,
            decreases count_false(seen@), work@.len(),
        {
            let ghost pre = work@;
            let id = work.pop().unwrap();
            assert(pre =~= work@.push(id));
            proof {
                assert(pre[pre.len() - 1] == id);
                assert(g0.valid(id));
            }
            let i = id.index as usize;
            if seen[i] {
                proof {
                    assert forall|a: int, b: int| 0 <= a < n && seen@[a] && #[trigger] g0.succ(a, b) implies
                        (0 <= b < n && seen@[b]) || work@.contains(g0.rec_at(b).id) by {
                        if !(0 <= b < n && seen@[b]) {
                            assert(pre.contains(g0.rec_at(b).id));
                            let kk = choose|kk: int| 0 <= kk < pre.len() && pre[kk] == g0.rec_at(b).id;
                            if kk == pre.len() - 1 {
                                assert(g0.live_at(b));
                                assert(b == id.index);
                            } else {
                                assert(work@[kk] == g0.rec_at(b).id);
                            }
                        }
                    }
                    if include_seed && !seen@[si] {
                        assert(pre.contains(seed));
                        let kk = choose|kk: int| 0 <= kk < pre.len() && pre[kk] == seed;
                        if kk < pre.len() - 1 {
                            assert(work@[kk] == seed);
                        }
                    }
                    if !include_seed {
                        assert forall|j: int| #[trigger] g0.succ(si, j) implies
                            (0 <= j < n && seen@[j]) || work@.contains(g0.rec_at(j).id) by {
                            if !(0 <= j < n && seen@[j]) {
                                assert(pre.contains(g0.rec_at(j).id));
                                let kk = choose|kk: int| 0 <= kk < pre.len() && pre[kk] == g0.rec_at(j).id;
                                if kk == pre.len() - 1 {
                                    assert(g0.live_at(j));
                                    assert(j == id.index);
                                } else {
                                    assert(work@[kk] == g0.rec_at(j).id);
                                }
                            }
                        }
                    }
                }
                continue;
            }
            proof {
                lemma_count_false_set(seen@, i as int);
            }
            let ghost old_seen = seen@;
            let ghost old_vis = vis;
            seen.set(i, true);
            proof {
                vis = vis.insert(i as int);
                assert(!old_vis.contains(i as int));
                assert forall|x: int| #[trigger] vis.contains(x) <==> (0 <= x < n && seen@[x]) by {
                    if x != i as int {
                        assert(old_vis.contains(x) == vis.contains(x));
                    }
                }
                lemma_int_range(0, n as int);
                assert(vis.subset_of(set_int_range(0, n as int)));
                lemma_len_subset(vis, set_int_range(0, n as int));
                assert(n <= u32::MAX);
            }
            count = count + 1;
            if count > limit {
                let mut m = owned("invalidation exceeded ");
                append_decimal(&mut m, limit as u128);
                append_str(&mut m, " nodes");
                proof {
                    assert(m@ =~= msg_invalidation_limit(limit as nat));
                    assert(vis.subset_of(rs));
                    lemma_len_subset(vis, rs);
                    Graph::lemma_marked_state_marks(g0, *self, old_vis, *reason);
                    assert(old_vis.subset_of(rs));
                }
                return Err(Error::Limit(m));
            }
            let ghost before_mark = *self;
            self.mark_at(i, reason);
            proof {
                assert(g0.live_at(i as int));
                assert(before_mark.slots@[i as int] == g0.slots@[i as int]);
                assert(self.same_shape(g0));
                assert(self.marked_state(g0, vis, *reason)) by {
                    assert forall|j: int| 0 <= j < self.slots@.len() && !vis.contains(j) implies #[trigger] self.slots@[j] == g0.slots@[j] by {
                        assert(j != i as int);
                        assert(self.slots@[j] == before_mark.slots@[j]);
                    }
                    assert forall|j: int| 0 <= j < self.slots@.len() && vis.contains(j) implies
                        g0.live_at(j) && is_marked(#[trigger] self.rec_at(j), g0.rec_at(j), *reason) by {
                        if j != i as int {
                            assert(self.slots@[j] == before_mark.slots@[j]);
                            assert(old_vis.contains(j));
                            assert(before_mark.marked_state(g0, old_vis, *reason));
                            assert(is_marked(before_mark.rec_at(j), g0.rec_at(j), *reason));
                        }
                    }
                }
            }
            let ghost inv_before = invalidated@;
            invalidated.push(id);
            proof {
                assert forall|a: int, b: int| 0 <= a < b < invalidated@.len() implies
                    (#[trigger] invalidated@[a]).index != (#[trigger] invalidated@[b]).index by {
                    if b == invalidated@.len() - 1 {
                        assert(old_vis.contains(inv_before[a].index as int));
                    } else {
                        assert(inv_before[a] == invalidated@[a] && inv_before[b] == invalidated@[b]);
                    }
                }
                assert forall|m: int| 0 <= m < invalidated@.len() implies
                    g0.valid(#[trigger] invalidated@[m]) && vis.contains(invalidated@[m].index as int) by {
                    if m < inv_before.len() {
                        assert(inv_before[m] == invalidated@[m]);
                    }
                }
            }
            let ghost old_work = pre;
            let deps = &self.slots[i].data.as_ref().unwrap().dependents;
            proof {
                assert(self.live_at(i as int));
                assert(*deps == g0.rec_at(i as int).dependents);
            }
            let mut k: usize = 0;
            while k < deps.len()
                invariant
                    g0.wf(),
                    g0.live_at(i as int),
                    *deps == g0.rec_at(i as int).dependents,
                    k <= deps@.len(),
                    rs == g0.reach_set(seed, include_seed),
                    rs.contains(i as int),
                    si == seed.index,
                    forall|m: int| 0 <= m < work@.len() ==> g0.valid(#[trigger] work@[m]) && rs.contains(work@[m].index as int),
                    forall|m: int| 0 <= m < k ==> work@.contains(#[trigger] deps@[m]),
                    forall|x: NodeId| old_work.contains(x) ==> work@.contains(x) || x == id,
                decreases deps@.len() - k,
            {
                let u = deps[k];
                proof {
                    assert(g0.valid(u));
                    assert(g0.succ(i as int, u.index as int));
                    let p = choose|p: Seq<int>| #[trigger] g0.is_walk(p) && p[0] == si && p.last() == i as int && (include_seed || p.len() >= 2);
                    g0.lemma_walk_extend(p, u.index as int);
                    assert(g0.is_walk(p.push(u.index as int)));
                    assert(p.push(u.index as int).last() == u.index as int);
                    assert(g0.live_at(u.index as int));
                    assert(rs.contains(u.index as int));
                }
                let ghost before = work@;
                work.push(u);
                proof {
                    assert forall|m: int| 0 <= m < k + 1 implies work@.contains(#[trigger] deps@[m]) by {
                        if m < k {
                            let mm = choose|mm: int| 0 <= mm < before.len() && before[mm] == deps@[m];
                            assert(work@[mm] == deps@[m]);
                        } else {
                            assert(work@[work@.len() - 1] == deps@[m]);
                        }
                    }
                    assert forall|x: NodeId| old_work.contains(x) implies work@.contains(x) || x == id by {
                        if before.contains(x) {
                            let mm = choose|mm: int| 0 <= mm < before.len() && before[mm] == x;
                            assert(work@[mm] == x);
                        }
                    }
                }
                k = k + 1;
            }
            proof {
                assert forall|a: int, b: int| 0 <= a < n && seen@[a] && #[trigger] g0.succ(a, b) implies
                    (0 <= b < n && seen@[b]) || work@.contains(g0.rec_at(b).id) by {
                    if a == i as int {
                        let kk = choose|kk: int| 0 <= kk < deps@.len() && deps@[kk] == g0.rec_at(b).id;
                        assert(work@.contains(deps@[kk]));
                    } else if !(0 <= b < n && seen@[b]) {
                        assert(old_seen[a]);
                        assert(old_work.contains(g0.rec_at(b).id));
                        if g0.rec_at(b).id == id {
                            assert(g0.live_at(b));
                            assert(b == i as int);
                        }
                    }
                }
                if include_seed && !seen@[si] {
                    assert(old_work.contains(seed));
                }
                if !include_seed {
                    assert forall|j: int| #[trigger] g0.succ(si, j) implies
                        (0 <= j < n && seen@[j]) || work@.contains(g0.rec_at(j).id) by {
                        if !(0 <= j < n && seen@[j]) {
                            assert(old_work.contains(g0.rec_at(j).id));
                            if g0.rec_at(j).id == id {
                                assert(g0.live_at(j));
                                assert(j == i as int);
                            }
                        }
                    }
                }
            }
        }
        proof {
            assert forall|j: int| rs.contains(j) implies vis.contains(j) by {
                let p = choose|p: Seq<int>| #[trigger] g0.is_walk(p) && p[0] == si && p.last() == j && (include_seed || p.len() >= 2);
                if include_seed {
                    assert(seen@[si]);
                    g0.lemma_closed_walk(seen@, p);
                } else {
                    g0.lemma_walk_step(p, 0);
                    assert(seen@[p[1]]);
                    let q = p.subrange(1, p.len() as int);
                    assert(g0.is_walk(q)) by {
                        assert forall|kk: int| 0 <= kk < q.len() - 1 implies #[trigger] g0.succ(q[kk], q[kk + 1]) by {
                            g0.lemma_walk_step(p, kk + 1);
                        }
                    }
                    g0.lemma_closed_walk(seen@, q);
                    assert(q.last() == j);
                }
            }
            assert(vis =~= rs);
            Graph::lemma_marked_state_marks(g0, *self, vis, *reason);
        }
        Ok(invalidated)
    }
}


spec fn is_dirty_slot(sl: Slot) -> bool {
    sl.live && sl.data is Some && sl.data.unwrap().status.spec_needs_compute()
}

spec fn count_dirty(s: Seq<Slot>) -> nat
    decreases s.len(),
{
    if s.len() == 0 {
        0
    } else {
        count_dirty(s.drop_last()) + (if is_dirty_slot(s.last()) { 1nat } else { 0nat })
    }
}

/// A live node that must be recomputed.
pub open spec fn dirty_node(g: Graph, x: NodeId) -> bool {
    g.valid(x) && g.rec(x).status.spec_needs_compute()
}

/// `x` is a dirty node not yet in `placed`, and every dirty node it depends
/// on is.
pub open spec fn is_ready(g: Graph, placed: Seq<NodeId>, x: NodeId) -> bool {
    &&& dirty_node(g, x)
    &&& !placed.contains(x)
    &&& forall|d: NodeId| #[trigger] g.rec(x).dependencies@.contains(d) && dirty_node(g, d) ==> placed.contains(d)
}

/// `order` lists every dirty node of `g`; each comes after the dirty nodes it
/// depends on, and each is the ready node of smallest index at its turn.
pub open spec fn is_dirty_schedule(g: Graph, order: Seq<NodeId>) -> bool {
    &&& forall|k: int| 0 <= k < order.len() ==> is_ready(g, order.take(k), #[trigger] order[k])
    &&& forall|k: int, y: NodeId| 0 <= k < order.len() && #[trigger] is_ready(g, order.take(k), y) ==> (#[trigger] order[k]).index <= y.index
    &&& forall|x: NodeId| dirty_node(g, x) ==> #[trigger] order.contains(x)
}

/// Message of a schedule with more dirty nodes than allowed.
pub open spec fn msg_schedule_limit(size: nat, max: nat) -> Seq<char> {
    "schedule size "@ + decimal(size) + " exceeds "@ + decimal(max)
}

proof fn lemma_count_dirty_prefix(s: Seq<Slot>, k: int)
    requires
        0 <= k <= s.len(),
    ensures
        count_dirty(s.subrange(0, k)) <= k,
    decreases k,
{
    if k > 0 {
        lemma_count_dirty_prefix(s, k - 1);
        assert(s.subrange(0, k).drop_last() =~= s.subrange(0, k - 1));
    }
}

proof fn lemma_count_dirty_none(s: Seq<Slot>)
    requires
        forall|i: int| 0 <= i < s.len() ==> !is_dirty_slot(#[trigger] s[i]),
    ensures
        count_dirty(s) == 0,
    decreases s.len(),
{
    if s.len() > 0 {
        let t = s.drop_last();
        assert forall|i: int| 0 <= i < t.len() implies !is_dirty_slot(#[trigger] t[i]) by {
            assert(t[i] == s[i]);
        }
        lemma_count_dirty_none(t);
        assert(!is_dirty_slot(s[s.len() - 1]));
    }
}

/// A graph with no node that must be recomputed counts none.
pub proof fn lemma_no_dirty_node(g: Graph)
    requires
        g.wf(),
        forall|x: NodeId| !#[trigger] dirty_node(g, x),
    ensures
        g.dirty_total() == 0,
{
    assert forall|i: int| 0 <= i < g.slots@.len() implies !is_dirty_slot(#[trigger] g.slots@[i]) by {
        if is_dirty_slot(g.slots@[i]) {
            assert(g.live_at(i));
            let x = g.rec_at(i).id;
            assert(g.valid(x));
            assert(dirty_node(g, x));
        }
    }
    lemma_count_dirty_none(g.slots@);
}

impl Graph {
    /// Number of live nodes that must be recomputed.
    pub closed spec fn dirty_total(&self) -> nat {
        count_dirty(self.slots@)
    }

    /// The dirty nodes, ascending by index.
    fn dirty_ids(&self) -> (ids: Vec<NodeId>)
        requires
            self.wf(),
        ensures
            ids@.len() == self.dirty_total(),
            ascending(ids@),
            forall|k: int| 0 <= k < ids@.len() ==> dirty_node(*self, #[trigger] ids@[k]),
            forall|x: NodeId| dirty_node(*self, x) ==> ids@.contains(x),
    {
        let mut ids: Vec<NodeId> = Vec::new();
        let n = self.slots.len();
        let mut i: usize = 0;
        while i < n
            invariant
                self.wf(),
                n == self.slots@.len(),
                i <= n,
                ids@.len() == count_dirty(self.slots@.subrange(0, i as int)),
                ascending(ids@),
                forall|k: int| 0 <= k < ids@.len() ==> dirty_node(*self, #[trigger] ids@[k]) && ids@[k].index < i,
                forall|x: NodeId| dirty_node(*self, x) && x.index < i ==> ids@.contains(x),
            decreases n - i,
        {
            proof {
                assert(self.slots@.subrange(0, i + 1).drop_last() =~= self.slots@.subrange(0, i as int));
                lemma_count_dirty_prefix(self.slots@, i as int);
            }
            if self.slots[i].live {
                let rec = self.slots[i].data.as_ref().unwrap();
                proof {
                    assert(self.live_at(i as int));
                }
                if rec.status.needs_compute() {
                    let ghost before = ids@;
                    ids.push(rec.id);
                    proof {
                        assert(rec.id == NodeId { index: i as u32, generation: self.slots@[i as int].generation });
                        assert(self.valid(rec.id));
                        assert forall|x: NodeId| dirty_node(*self, x) && x.index < i + 1 implies ids@.contains(x) by {
                            if x.index == i {
                                assert(ids@[ids@.len() - 1] == x);
                            } else {
                                let k = choose|k: int| 0 <= k < before.len() && before[k] == x;
                                assert(ids@[k] == x);
                            }
                        }
                    }
                }
            }
            i = i + 1;
        }
        assert(self.slots@.subrange(0, n as int) =~= self.slots@);
        ids
    }

    /// Whether every dirty dependency of the live node at slot `i` is placed.
    fn deps_placed(&self, i: usize, placed: &Vec<bool>, Ghost(order): Ghost<Seq<NodeId>>) -> (b: bool)
        requires
            self.wf(),
            self.live_at(i as int),
            placed@.len() == self.slots@.len(),
            forall|j: int| 0 <= j < placed@.len() ==> (#[trigger] placed@[j] <==> (self.live_at(j) && order.contains(self.rec_at(j).id))),
        ensures
            b == forall|d: NodeId| #[trigger] self.rec_at(i as int).dependencies@.contains(d) && dirty_node(*self, d) ==> order.contains(d),
    {
        let deps = &self.slots[i].data.as_ref().unwrap().dependencies;
        let mut k: usize = 0;
        while k < deps.len()
            invariant
                self.wf(),
                self.live_at(i as int),
                *deps == self.rec_at(i as int).dependencies,
                placed@.len() == self.slots@.len(),
                forall|j: int| 0 <= j < placed@.len() ==> (#[trigger] placed@[j] <==> (self.live_at(j) && order.contains(self.rec_at(j).id))),
                k <= deps@.len(),
                forall|m: int| 0 <= m < k && dirty_node(*self, #[trigger] deps@[m]) ==> order.contains(deps@[m]),
            decreases deps@.len() - k,
        {
            let d = deps[k];
            proof {
                assert(self.valid(d));
                assert(self.live_at(d.index as int));
                assert(self.rec_at(d.index as int).id == d);
            }
            let j = d.index as usize;
            let dirty = self.slots[j].data.as_ref().unwrap().status.needs_compute();
            if dirty && !placed[j] {
                proof {
                    assert(dirty_node(*self, d));
                    assert(self.rec_at(i as int).dependencies@.contains(d));
                }
                return false;
            }
            k = k + 1;
        }
        proof {
            assert forall|d: NodeId| #[trigger] self.rec_at(i as int).dependencies@.contains(d) && dirty_node(*self, d) implies order.contains(d) by {
                let m = choose|m: int| 0 <= m < deps@.len() && deps@[m] == d;
                assert(dirty_node(*self, deps@[m]));
            }
        }
        true
    }

    /// Position of the first ready node in `dirty`, or its length when none is.
    fn first_ready(&self, dirty: &Vec<NodeId>, done: &Vec<bool>, placed: &Vec<bool>, Ghost(order): Ghost<Seq<NodeId>>) -> (m: usize)
        requires
            self.wf(),
            forall|k: int| 0 <= k < dirty@.len() ==> dirty_node(*self, #[trigger] dirty@[k]),
            done@.len() == dirty@.len(),
            forall|k: int| 0 <= k < dirty@.len() ==> (#[trigger] done@[k] <==> order.contains(dirty@[k])),
            placed@.len() == self.slots@.len(),
            forall|j: int| 0 <= j < placed@.len() ==> (#[trigger] placed@[j] <==> (self.live_at(j) && order.contains(self.rec_at(j).id))),
        ensures
            m <= dirty@.len(),
            forall|k: int| 0 <= k < m ==> #[trigger] done@[k] || !is_ready(*self, order, dirty@[k]),
            m < dirty@.len() ==> !done@[m as int] && is_ready(*self, order, dirty@[m as int]),
    {
        let mut m: usize = 0;
        while m < dirty.len()
            invariant
                self.wf(),
                forall|k: int| 0 <= k < dirty@.len() ==> dirty_node(*self, #[trigger] dirty@[k]),
                done@.len() == dirty@.len(),
                forall|k: int| 0 <= k < dirty@.len() ==> (#[trigger] done@[k] <==> order.contains(dirty@[k])),
                placed@.len() == self.slots@.len(),
                forall|j: int| 0 <= j < placed@.len() ==> (#[trigger] placed@[j] <==> (self.live_at(j) && order.contains(self.rec_at(j).id))),
                m <= dirty@.len(),
                forall|k: int| 0 <= k < m ==> #[trigger] done@[k] || !is_ready(*self, order, dirty@[k]),
            decreases dirty@.len() - m,
        {
            if !done[m] {
                let x = dirty[m];
                proof {
                    assert(dirty_node(*self, x));
                    assert(self.live_at(x.index as int));
                    assert(self.rec_at(x.index as int).id == x);
                }
                if self.deps_placed(x.index as usize, placed, Ghost(order)) {
                    return m;
                }
            }
            m = m + 1;
        }
        m
    }

    proof fn lemma_min_rank(&self, dirty: Seq<NodeId>, done: Seq<bool>, len: int, w: int) -> (m: int)
        requires
            0 <= w < len <= dirty.len(),
            done.len() == dirty.len(),
            !done[w],
        ensures
            0 <= m < len,
            !done[m],
            forall|m2: int| 0 <= m2 < len && !done[m2] ==>
                self.rank@[dirty[m].index as int] <= self.rank@[(#[trigger] dirty[m2]).index as int],
        decreases len,
    {
        let last = len - 1;
        if w == last {
            if exists|m2: int| 0 <= m2 < last && !done[m2] {
                let w2 = choose|m2: int| 0 <= m2 < last && !done[m2];
                let m = self.lemma_min_rank(dirty, done, last, w2);
                if self.rank@[dirty[last].index as int] < self.rank@[dirty[m].index as int] {
                    last
                } else {
                    m
                }
            } else {
                last
            }
        } else {
            let m = self.lemma_min_rank(dirty, done, last, w);
            if !done[last] && self.rank@[dirty[last].index as int] < self.rank@[dirty[m].index as int] {
                last
            } else {
                m
            }
        }
    }

    proof fn lemma_some_ready(&self, dirty: Seq<NodeId>, done: Seq<bool>, order: Seq<NodeId>, w: int)
        requires
            self.wf(),
            forall|k: int| 0 <= k < dirty.len() ==> dirty_node(*self, #[trigger] dirty[k]),
            forall|x: NodeId| dirty_node(*self, x) ==> dirty.contains(x),
            done.len() == dirty.len(),
            forall|k: int| 0 <= k < dirty.len() ==> (#[trigger] done[k] <==> order.contains(dirty[k])),
            0 <= w < dirty.len(),
            !done[w],
        ensures
            exists|m: int| 0 <= m < dirty.len() && !done[m] && #[trigger] is_ready(*self, order, dirty[m]),
    {
        let m = self.lemma_min_rank(dirty, done, dirty.len() as int, w);
        let x = dirty[m];
        assert(dirty_node(*self, x));
        let i = x.index as int;
        assert(self.live_at(i));
        assert(self.rec_at(i).id == x);
        assert forall|d: NodeId| #[trigger] self.rec(x).dependencies@.contains(d) && dirty_node(*self, d) implies order.contains(d) by {
            let k = choose|k: int| 0 <= k < self.rec_at(i).dependencies@.len() && self.rec_at(i).dependencies@[k] == d;
            assert(self.rank@[d.index as int] < self.rank@[i]);
            let m2 = choose|m2: int| 0 <= m2 < dirty.len() && dirty[m2] == d;
            if !done[m2] {
                assert(self.rank@[dirty[m].index as int] <= self.rank@[dirty[m2].index as int]);
            }
        }
        assert(!order.contains(x));
        assert(is_ready(*self, order, dirty[m]));
    }

    /// The dirty nodes in the order they are to be recomputed: each after the
    /// dirty nodes it depends on, ties broken by the smallest index. A graph
    /// with more dirty nodes than `max_schedule_nodes` gets a limit error.
    pub fn schedule_dirty(&self) -> (r: Result<Schedule, Error>)
        requires
            self.wf(),
        ensures
            r is Err <==> self.dirty_total() > self.limits_of().max_schedule_nodes,
            r matches Err(e) ==> e.is_limit(msg_schedule_limit(self.dirty_total(), self.limits_of().max_schedule_nodes as nat)),
            r matches Ok(s) ==> is_dirty_schedule(*self, s.order@),
    {
        let dirty = self.dirty_ids();
        if dirty.len() > self.limits.max_schedule_nodes {
            let mut m = owned("schedule size ");
            append_decimal(&mut m, dirty.len() as u128);
            append_str(&mut m, " exceeds ");
            append_decimal(&mut m, self.limits.max_schedule_nodes as u128);
            proof {
                assert(m@ =~= msg_schedule_limit(self.dirty_total(), self.limits.max_schedule_nodes as nat));
            }
            return Err(Error::Limit(m));
        }
        let n = self.slots.len();
        let mut placed: Vec<bool> = Vec::new();
        let mut k: usize = 0;
        while k < n
            invariant
                k <= n,
                placed@.len() == k,
                forall|x: int| 0 <= x < k ==> !(#[trigger] placed@[x]),
            decreases n - k,
        {
            placed.push(false);
            k = k + 1;
        }
        let mut done: Vec<bool> = Vec::new();
        let mut k: usize = 0;
        while k < dirty.len()
            invariant
                k <= dirty@.len(),
                done@.len() == k,
                forall|x: int| 0 <= x < k ==> !(#[trigger] done@[x]),
            decreases dirty@.len() - k,
        {
            done.push(false);
            k = k + 1;
        }
        let mut order: Vec<NodeId> = Vec::new();
        let mut m = self.first_ready(&dirty, &done, &placed, Ghost(order@));
        while m < dirty.len()
            invariant
                self.wf(),
                n == self.slots@.len(),
                ascending(dirty@),
                forall|k: int| 0 <= k < dirty@.len() ==> dirty_node(*self, #[trigger] dirty@[k]),
                forall|x: NodeId| dirty_node(*self, x) ==> dirty@.contains(x),
                placed@.len() == n,
                done@.len() == dirty@.len(),
                forall|j: int| 0 <= j < placed@.len() ==> (#[trigger] placed@[j] <==> (self.live_at(j) && order@.contains(self.rec_at(j).id))),
                forall|k: int| 0 <= k < dirty@.len() ==> (#[trigger] done@[k] <==> order@.contains(dirty@[k])),
                forall|k: int| 0 <= k < order@.len() ==> is_ready(*self, order@.take(k), #[trigger] order@[k]),
                forall|k: int, y: NodeId| 0 <= k < order@.len() && #[trigger] is_ready(*self, order@.take(k), y) ==> (#[trigger] order@[k]).index <= y.index,
                m <= dirty@.len(),
                forall|k: int| 0 <= k < m ==> #[trigger] done@[k] || !is_ready(*self, order@, dirty@[k]),
                m < dirty@.len() ==> !done@[m as int] && is_ready(*self, order@, dirty@[m as int]),
            decreases count_false(done@),
        {
            let x = dirty[m];
            let ghost before = order@;
            proof {
                assert(dirty_node(*self, x));
                assert(self.live_at(x.index as int));
                assert(self.rec_at(x.index as int).id == x);
                lemma_count_false_set(done@, m as int);
            }
            order.push(x);
            placed.set(x.index as usize, true);
            done.set(m, true);
            proof {
                assert forall|y: NodeId| #[trigger] order@.contains(y) <==> (before.contains(y) || y == x) by {
                    if order@.contains(y) {
                        let kk = choose|kk: int| 0 <= kk < order@.len() && order@[kk] == y;
                        if kk < before.len() {
                            assert(before[kk] == y);
                        }
                    }
                    if before.contains(y) {
                        let kk = choose|kk: int| 0 <= kk < before.len() && before[kk] == y;
                        assert(order@[kk] == y);
                    }
                    if y == x {
                        assert(order@[before.len() as int] == y);
                    }
                }
                assert forall|j: int| 0 <= j < placed@.len() implies (#[trigger] placed@[j] <==> (self.live_at(j) && order@.contains(self.rec_at(j).id))) by {
                    if j == x.index as int {
                    } else if self.live_at(j) {
                        assert(self.rec_at(j).id.index == j);
                    }
                }
                assert forall|k: int| 0 <= k < dirty@.len() implies (#[trigger] done@[k] <==> order@.contains(dirty@[k])) by {
                    if k != m as int {
                        if dirty@[k] == x {
                            assert(dirty@[k].index == dirty@[m as int].index);
                        }
                    }
                }
                assert(order@.take(before.len() as int) =~= before);
                assert forall|k: int| 0 <= k < order@.len() implies is_ready(*self, order@.take(k), #[trigger] order@[k]) by {
                    if k < before.len() {
                        assert(order@.take(k) =~= before.take(k));
                        assert(order@[k] == before[k]);
                    }
                }
                assert forall|k: int, y: NodeId| 0 <= k < order@.len() && #[trigger] is_ready(*self, order@.take(k), y) implies (#[trigger] order@[k]).index <= y.index by {
                    if k < before.len() {
                        assert(order@.take(k) =~= before.take(k));
                        assert(order@[k] == before[k]);
                        assert(is_ready(*self, before.take(k), y));
                    } else {
                        assert(is_ready(*self, before, y));
                        let m2 = choose|m2: int| 0 <= m2 < dirty@.len() && dirty@[m2] == y;
                        if m2 < m {
                            assert(!done@[m2]);
                        }
                        if m2 > m {
                            assert(dirty@[m as int].index < dirty@[m2].index);
                        }
                    }
                }
            }
            m = self.first_ready(&dirty, &done, &placed, Ghost(order@));
        }
        proof {
            assert forall|k: int| 0 <= k < dirty@.len() implies #[trigger] done@[k] by {
                if !done@[k] {
                    self.lemma_some_ready(dirty@, done@, order@, k);
                    let m2 = choose|m2: int| 0 <= m2 < dirty@.len() && !done@[m2] && #[trigger] is_ready(*self, order@, dirty@[m2]);
                    assert(done@[m2] || !is_ready(*self, order@, dirty@[m2]));
                }
            }
            assert forall|x: NodeId| dirty_node(*self, x) implies #[trigger] order@.contains(x) by {
                let k = choose|k: int| 0 <= k < dirty@.len() && dirty@[k] == x;
                assert(done@[k]);
            }
        }
        Ok(Schedule { order })
    }
}


spec fn holds_id(s: Seq<(NodeId, usize)>, id: NodeId) -> bool {
    exists|k: int| 0 <= k < s.len() && (#[trigger] s[k]).0 == id
}

proof fn lemma_count_false_push(s: Seq<bool>, b: bool)
    ensures
        count_false(s.push(b)) == count_false(s) + (if b { 0nat } else { 1nat }),
{
    assert(s.push(b).drop_last() =~= s);
}

proof fn lemma_count_false_bound(s: Seq<bool>)
    ensures
        count_false(s) <= s.len(),
    decreases s.len(),
{
    if s.len() > 0 {
        lemma_count_false_bound(s.drop_last());
    }
}

/// `r` is the depth of the graph: some chain of dependencies has `r` edges
/// (or the graph has no node), and every node upstream of a live node is
/// reached from it by a chain of at most `r` edges.
pub open spec fn is_max_depth(g: Graph, r: nat) -> bool {
    &&& (r == 0 || exists|v: int, x: int| #[trigger] g.chain_len(v, x, r))
    &&& forall|x: NodeId, v: int| g.valid(x) && #[trigger] g.reach_index(v, x.index as int) ==> g.chain_within(v, x.index as int, r)
}

impl Graph {
    /// A walk along dependents from slot `up` to slot `down` of exactly `edges` steps.
    pub closed spec fn chain_len(&self, up: int, down: int, edges: nat) -> bool {
        exists|p: Seq<int>| #[trigger] self.is_walk(p) && p[0] == up && p.last() == down && p.len() == edges + 1
    }

    /// A walk along dependents from slot `up` to slot `down` of at most `edges` steps.
    pub closed spec fn chain_within(&self, up: int, down: int, edges: nat) -> bool {
        exists|p: Seq<int>| #[trigger] self.is_walk(p) && p[0] == up && p.last() == down && p.len() <= edges + 1
    }

    proof fn lemma_walk_prepend(&self, j: int, p: Seq<int>)
        requires
            self.is_walk(p),
            self.succ(j, p[0]),
        ensures
            self.is_walk(seq![j] + p),
    {
        let q = seq![j] + p;
        assert forall|k: int| 0 <= k < q.len() - 1 implies #[trigger] self.succ(q[k], q[k + 1]) by {
            if k > 0 {
                assert(q[k] == p[k - 1] && q[k + 1] == p[k]);
                self.lemma_walk_step(p, k - 1);
            }
        }
    }

    proof fn lemma_closed_walk_back(&self, seen: Seq<bool>, p: Seq<int>)
        requires
            self.is_walk(p),
            0 <= p.last() < seen.len(),
            seen[p.last()],
            forall|u: int, w: int| 0 <= u < seen.len() && seen[u] && #[trigger] self.succ(w, u) ==> 0 <= w < seen.len() && seen[w],
        ensures
            0 <= p[0] < seen.len() && seen[p[0]],
        decreases p.len(),
    {
        if p.len() > 1 {
            let q = p.subrange(1, p.len() as int);
            assert(self.is_walk(q)) by {
                assert forall|k: int| 0 <= k < q.len() - 1 implies #[trigger] self.succ(q[k], q[k + 1]) by {
                    self.lemma_walk_step(p, k + 1);
                }
            }
            self.lemma_closed_walk_back(seen, q);
            self.lemma_walk_step(p, 0);
        }
    }

    /// How far dependencies reach above the live node `x`: the depth of some
    /// chain ending at `x`, no smaller than the distance to any node above it.
    fn depth_of(&self, x: NodeId) -> (r: usize)
        requires
            self.wf(),
            self.valid(x),
        ensures
            exists|v: int| #[trigger] self.chain_len(v, x.index as int, r as nat),
            forall|v: int| #[trigger] self.reach_index(v, x.index as int) ==> self.chain_within(v, x.index as int, r as nat),
    {
        let ghost xi = x.index as int;
        let n = self.slots.len();
        let mut seen: Vec<bool> = Vec::new();
        let mut k: usize = 0;
        while k < n
            invariant
                k <= n,
                seen@.len() == k,
                count_false(seen@) == k,
                forall|y: int| 0 <= y < k ==> !(#[trigger] seen@[y]),
            decreases n - k,
        {
            proof {
                lemma_count_false_push(seen@, false);
            }
            seen.push(false);
            k = k + 1;
        }
        let mut stack: Vec<(NodeId, usize)> = Vec::new();
        stack.push((x, 0));
        let mut best: usize = 0;
        let mut count: usize = 0;
        let ghost mut best_at: int = xi;
        proof {
            assert(self.is_walk(seq![xi]));
            assert(self.chain_len(xi, xi, 0));
            assert(stack@[0].0 == x);
        }
        while stack.len() > 0
            invariant
                self.wf(),
                self.valid(x),
                xi == x.index,
                n == self.slots@.len(),
                seen@.len() == n,
                count + count_false(seen@) == n,
                forall|m: int| 0 <= m < stack@.len() ==> {
                    &&& self.valid((#[trigger] stack@[m]).0)
                    &&& self.chain_len(stack@[m].0.index as int, xi, stack@[m].1 as nat)
                    &&& stack@[m].1 <= count
                },
                best <= count,
                self.chain_len(best_at, xi, best as nat),
                forall|i: int| 0 <= i < n && #[trigger] seen@[i] ==> self.live_at(i) && self.chain_within(i, xi, best as nat),
                forall|u: int, w: int| 0 <= u < n && seen@[u] && #[trigger] self.succ(w, u) ==>
                    (0 <= w < n && seen@[w]) || holds_id(stack@, self.rec_at(w).id),
                seen@[xi] || holds_id(stack@, x),
            decreases count_false(seen@), stack@.len(),
        {
            let ghost pre = stack@;
            let (id, depth) = stack.pop().unwrap();
            assert(pre =~= stack@.push((id, depth)));
            proof {
                assert(pre[pre.len() - 1] == (id, depth));
                assert(self.valid(id));
            }
            let i = id.index as usize;
            if seen[i] {
                proof {
                    assert forall|u: int, w: int| 0 <= u < n && seen@[u] && #[trigger] self.succ(w, u) implies
                        (0 <= w < n && seen@[w]) || holds_id(stack@, self.rec_at(w).id) by {
                        if !(0 <= w < n && seen@[w]) {
                            let kk = choose|kk: int| 0 <= kk < pre.len() && (#[trigger] pre[kk]).0 == self.rec_at(w).id;
                            if kk == pre.len() - 1 {
                                assert(self.live_at(w));
                                assert(w == i as int);
                            } else {
                                assert(stack@[kk] == pre[kk]);
                            }
                        }
                    }
                    if !seen@[xi] {
                        let kk = choose|kk: int| 0 <= kk < pre.len() && (#[trigger] pre[kk]).0 == x;
                        if kk < pre.len() - 1 {
                            assert(stack@[kk] == pre[kk]);
                        }
                    }
                }
                continue;
            }
            proof {
                lemma_count_false_set(seen@, i as int);
                lemma_count_false_bound(seen@.update(i as int, true));
            }
            let ghost old_seen = seen@;
            let ghost old_best = best;
            seen.set(i, true);
            count = count + 1;
            if depth > best {
                best = depth;
                proof {
                    best_at = i as int;
                }
            }
            proof {
                assert(self.live_at(i as int));
                assert forall|y: int| 0 <= y < n && #[trigger] seen@[y] implies self.live_at(y) && self.chain_within(y, xi, best as nat) by {
                    if y == i as int {
                        let p = choose|p: Seq<int>| #[trigger] self.is_walk(p) && p[0] == y && p.last() == xi && p.len() == depth + 1;
                        assert(self.is_walk(p) && p[0] == y && p.last() == xi && p.len() <= best + 1);
                    } else {
                        assert(old_seen[y]);
                        let p = choose|p: Seq<int>| #[trigger] self.is_walk(p) && p[0] == y && p.last() == xi && p.len() <= old_best + 1;
                        assert(self.is_walk(p) && p[0] == y && p.last() == xi && p.len() <= best + 1);
                    }
                }
            }
            let ghost old_stack = pre;
            let deps = &self.slots[i].data.as_ref().unwrap().dependencies;
            let mut k: usize = 0;
            while k < deps.len()
                invariant
                    self.wf(),
                    self.live_at(i as int),
                    *deps == self.rec_at(i as int).dependencies,
                    k <= deps@.len(),
                    xi == x.index,
                    self.chain_len(i as int, xi, depth as nat),
                    depth < count,
                    count <= n,
                    n == self.slots@.len(),
                    n <= u32::MAX,
                    forall|m: int| 0 <= m < stack@.len() ==> {
                        &&& self.valid((#[trigger] stack@[m]).0)
                        &&& self.chain_len(stack@[m].0.index as int, xi, stack@[m].1 as nat)
                        &&& stack@[m].1 <= count
                    },
                    forall|m: int| 0 <= m < k ==> holds_id(stack@, #[trigger] deps@[m]),
                    forall|y: NodeId| holds_id(old_stack, y) ==> holds_id(stack@, y) || y == id,
                decreases deps@.len() - k,
            {
                let d = deps[k];
                proof {
                    assert(self.valid(d));
                    assert(self.rec(d).dependents@.contains(self.rec_at(i as int).id));
                    assert(self.live_at(d.index as int));
                    assert(self.succ(d.index as int, i as int));
                    let p = choose|p: Seq<int>| #[trigger] self.is_walk(p) && p[0] == i as int && p.last() == xi && p.len() == depth + 1;
                    self.lemma_walk_prepend(d.index as int, p);
                    let q = seq![d.index as int] + p;
                    assert(self.is_walk(q) && q[0] == d.index as int && q.last() == xi && q.len() == depth + 2);
                    assert(self.chain_len(d.index as int, xi, (depth + 1) as nat));
                }
                let ghost before = stack@;
                stack.push((d, depth + 1));
                proof {
                    assert(stack@[stack@.len() - 1].0 == d);
                    assert forall|m: int| 0 <= m < k + 1 implies holds_id(stack@, #[trigger] deps@[m]) by {
                        if m < k {
                            let mm = choose|mm: int| 0 <= mm < before.len() && (#[trigger] before[mm]).0 == deps@[m];
                            assert(stack@[mm] == before[mm]);
                        }
                    }
                    assert forall|y: NodeId| holds_id(old_stack, y) implies holds_id(stack@, y) || y == id by {
                        if holds_id(before, y) {
                            let mm = choose|mm: int| 0 <= mm < before.len() && (#[trigger] before[mm]).0 == y;
                            assert(stack@[mm] == before[mm]);
                        }
                    }
                }
                k = k + 1;
            }
            proof {
                assert forall|u: int, w: int| 0 <= u < n && seen@[u] && #[trigger] self.succ(w, u) implies
                    (0 <= w < n && seen@[w]) || holds_id(stack@, self.rec_at(w).id) by {
                    if u == i as int {
                        assert(self.live_at(w));
                        assert(self.rec_at(w).dependents@.contains(self.rec_at(i as int).id));
                        let kk = choose|kk: int| 0 <= kk < self.rec_at(w).dependents@.len() && self.rec_at(w).dependents@[kk] == self.rec_at(i as int).id;
                        assert(self.rec_at(i as int).dependencies@.contains(self.rec_at(w).id));
                        let m = choose|m: int| 0 <= m < deps@.len() && deps@[m] == self.rec_at(w).id;
                        assert(holds_id(stack@, deps@[m]));
                    } else if !(0 <= w < n && seen@[w]) {
                        assert(old_seen[u]);
                        assert(holds_id(old_stack, self.rec_at(w).id));
                        if self.rec_at(w).id == id {
                            assert(self.live_at(w));
                            assert(w == i as int);
                        }
                    }
                }
                if !seen@[xi] {
                    assert(holds_id(old_stack, x));
                }
            }
        }
        proof {
            assert forall|v: int| #[trigger] self.reach_index(v, xi) implies self.chain_within(v, xi, best as nat) by {
                let p = choose|p: Seq<int>| #[trigger] self.is_walk(p) && p[0] == v && p.last() == xi;
                self.lemma_closed_walk_back(seen@, p);
            }
        }
        best
    }

    /// The largest depth of any live node.
    pub fn max_depth(&self) -> (r: usize)
        requires
            self.wf(),
        ensures
            is_max_depth(*self, r as nat),
    {
        let ids = self.live_ids();
        let mut best: usize = 0;
        let ghost mut at: (int, int) = (0, 0);
        let mut k: usize = 0;
        while k < ids.len()
            invariant
                self.wf(),
                forall|m: int| 0 <= m < ids@.len() ==> self.valid(#[trigger] ids@[m]),
                forall|id: NodeId| self.valid(id) ==> ids@.contains(id),
                k <= ids@.len(),
                best == 0 || self.chain_len(at.0, at.1, best as nat),
                forall|m: int, v: int| 0 <= m < k && #[trigger] self.reach_index(v, ids@[m].index as int) ==>
                    self.chain_within(v, ids@[m].index as int, best as nat),
            decreases ids@.len() - k,
        {
            let id = ids[k];
            let d = self.depth_of(id);
            let ghost old_best = best;
            if d > best {
                best = d;
                proof {
                    let v = choose|v: int| #[trigger] self.chain_len(v, id.index as int, d as nat);
                    at = (v, id.index as int);
                }
            }
            proof {
                assert forall|m: int, v: int| 0 <= m < k + 1 && #[trigger] self.reach_index(v, ids@[m].index as int) implies
                    self.chain_within(v, ids@[m].index as int, best as nat) by {
                    let lim: nat = if m < k { old_best as nat } else { d as nat };
                    assert(self.chain_within(v, ids@[m].index as int, lim));
                    let p = choose|p: Seq<int>| #[trigger] self.is_walk(p) && p[0] == v && p.last() == ids@[m].index as int && p.len() <= lim + 1;
                    assert(self.is_walk(p) && p[0] == v && p.last() == ids@[m].index as int && p.len() <= best + 1);
                }
            }
            k = k + 1;
        }
        proof {
            if best != 0 {
                assert(self.chain_len(at.0, at.1, best as nat));
            }
            assert forall|x: NodeId, v: int| self.valid(x) && #[trigger] self.reach_index(v, x.index as int) implies
                self.chain_within(v, x.index as int, best as nat) by {
                let m = choose|m: int| 0 <= m < ids@.len() && ids@[m] == x;
                assert(self.reach_index(v, ids@[m].index as int));
            }
        }
        best
    }
}


spec fn status_of(sl: Slot) -> NodeStatus {
    sl.data.unwrap().status
}

spec fn count_status(s: Seq<Slot>, f: spec_fn(NodeStatus) -> bool) -> nat
    decreases s.len(),
{
    if s.len() == 0 {
        0
    } else {
        count_status(s.drop_last(), f) + (if s.last().live && f(status_of(s.last())) { 1nat } else { 0nat })
    }
}

spec fn fanout_of(sl: Slot) -> nat {
    if sl.live && sl.data is Some {
        sl.data.unwrap().dependents@.len()
    } else {
        0
    }
}

spec fn max_fanout_of(s: Seq<Slot>) -> nat
    decreases s.len(),
{
    if s.len() == 0 {
        0
    } else {
        let prev = max_fanout_of(s.drop_last());
        if fanout_of(s.last()) > prev { fanout_of(s.last()) } else { prev }
    }
}

proof fn lemma_count_status_prefix(s: Seq<Slot>, f: spec_fn(NodeStatus) -> bool, k: int)
    requires
        0 <= k <= s.len(),
    ensures
        count_status(s.subrange(0, k), f) <= k,
    decreases k,
{
    if k > 0 {
        lemma_count_status_prefix(s, f, k - 1);
        assert(s.subrange(0, k).drop_last() =~= s.subrange(0, k - 1));
    }
}

/// `st` counts the nodes of `g` by status, its edges, its depth and its
/// widest fan-out.
pub open spec fn stats_of(g: Graph, st: GraphStats) -> bool {
    &&& st.total_nodes == g.live_total()
    &&& st.dirty_nodes == g.status_total(|s: NodeStatus| dirty_or_running(s))
    &&& st.clean_nodes == g.status_total(|s: NodeStatus| s is Clean)
    &&& st.failed_nodes == g.status_total(|s: NodeStatus| s is Failed)
    &&& st.pending_nodes == g.status_total(|s: NodeStatus| s is Pending)
    &&& st.dependency_edges == g.edge_total()
    &&& is_max_depth(g, st.max_dependency_depth as nat)
    &&& st.max_fanout == g.fanout_max()
}

/// The statuses counted as dirty in statistics.
pub open spec fn dirty_or_running(st: NodeStatus) -> bool {
    st is Dirty || st is Computing
}

/// What a reader is shown of one node: fingerprints in hex, neighbours by
/// name, the last invalidation described in words.
#[derive(Debug)]
pub struct NodeInspect {
    pub id: NodeId,
    pub name: String,
    pub kind: String,
    pub status: NodeStatus,
    pub version: Version,
    pub input_fingerprint: Option<String>,
    pub output_fingerprint: Option<String>,
    pub dependencies: Vec<String>,
    pub dependents: Vec<String>,
    pub last_invalidation: Option<String>,
    pub last_compute_nanos: u128,
    pub last_recompute_count: u64,
    pub metadata: BTreeMap<String, String>,
}

/// `s` shows the fingerprint `f`, if any, in hex.
pub open spec fn shows_fingerprint(s: Option<String>, f: Option<Fingerprint>) -> bool {
    match f {
        Some(fp) => s matches Some(t) && t@ == hex_fixed(fp.0 as nat, 16),
        None => s is None,
    }
}

/// `names` are the names of the nodes `ids`, in order.
pub open spec fn names_of(g: Graph, ids: Seq<NodeId>, names: Seq<String>) -> bool {
    &&& names.len() == ids.len()
    &&& forall|k: int| 0 <= k < ids.len() ==> (#[trigger] names[k])@ == g.rec(ids[k]).name@
}

fn fingerprint_text(f: &Option<Fingerprint>) -> (s: Option<String>)
    ensures
        shows_fingerprint(s, *f),
{
    match f {
        Some(fp) => Some(fp.hex()),
        None => None,
    }
}

impl Graph {
    /// Number of live nodes whose status satisfies `f`.
    pub closed spec fn status_total(&self, f: spec_fn(NodeStatus) -> bool) -> nat {
        count_status(self.slots@, f)
    }

    /// The most dependents any live node has.
    pub closed spec fn fanout_max(&self) -> nat {
        max_fanout_of(self.slots@)
    }

    /// Counts of nodes by status, edges, depth and fan-out.
    pub fn stats(&self) -> (st: GraphStats)
        requires
            self.wf(),
        ensures
            st.total_nodes == self.live_total(),
            st.dirty_nodes == self.status_total(|s: NodeStatus| dirty_or_running(s)),
            st.clean_nodes == self.status_total(|s: NodeStatus| s is Clean),
            st.failed_nodes == self.status_total(|s: NodeStatus| s is Failed),
            st.pending_nodes == self.status_total(|s: NodeStatus| s is Pending),
            st.dependency_edges == self.edge_total(),
            is_max_depth(*self, st.max_dependency_depth as nat),
            st.max_fanout == self.fanout_max(),
    {
        let ghost fd = |s: NodeStatus| dirty_or_running(s);
        let ghost fc = |s: NodeStatus| s is Clean;
        let ghost ff = |s: NodeStatus| s is Failed;
        let ghost fp = |s: NodeStatus| s is Pending;
        let total = self.live_count();
        let depth = self.max_depth();
        let n = self.slots.len();
        let mut dirty: usize = 0;
        let mut clean: usize = 0;
        let mut failed: usize = 0;
        let mut pending: usize = 0;
        let mut fan: usize = 0;
        let mut i: usize = 0;
        while i < n
            invariant
                self.wf(),
                n == self.slots@.len(),
                i <= n,
                dirty == count_status(self.slots@.subrange(0, i as int), fd),
                clean == count_status(self.slots@.subrange(0, i as int), fc),
                failed == count_status(self.slots@.subrange(0, i as int), ff),
                pending == count_status(self.slots@.subrange(0, i as int), fp),
                fan == max_fanout_of(self.slots@.subrange(0, i as int)),
                fd == (|s: NodeStatus| dirty_or_running(s)),
                fc == (|s: NodeStatus| s is Clean),
                ff == (|s: NodeStatus| s is Failed),
                fp == (|s: NodeStatus| s is Pending),
            decreases n - i,
        {
            proof {
                assert(self.slots@.subrange(0, i + 1).drop_last() =~= self.slots@.subrange(0, i as int));
                lemma_count_status_prefix(self.slots@, fd, i as int);
                lemma_count_status_prefix(self.slots@, fc, i as int);
                lemma_count_status_prefix(self.slots@, ff, i as int);
                lemma_count_status_prefix(self.slots@, fp, i as int);
            }
            if self.slots[i].live {
                let rec = self.slots[i].data.as_ref().unwrap();
                proof {
                    assert(self.live_at(i as int));
                }
                if rec.dependents.len() > fan {
                    fan = rec.dependents.len();
                }
                match rec.status {
                    NodeStatus::Dirty | NodeStatus::Computing => dirty = dirty + 1,
                    NodeStatus::Clean => clean = clean + 1,
                    NodeStatus::Failed => failed = failed + 1,
                    NodeStatus::Pending => pending = pending + 1,
                }
            }
            i = i + 1;
        }
        assert(self.slots@.subrange(0, n as int) =~= self.slots@);
        GraphStats {
            total_nodes: total,
            dirty_nodes: dirty,
            clean_nodes: clean,
            failed_nodes: failed,
            pending_nodes: pending,
            dependency_edges: self.edge_count,
            max_dependency_depth: depth,
            max_fanout: fan,
        }
    }

    fn names(&self, ids: &Vec<NodeId>) -> (names: Vec<String>)
        requires
            self.wf(),
            forall|k: int| 0 <= k < ids@.len() ==> self.valid(#[trigger] ids@[k]),
        ensures
            names_of(*self, ids@, names@),
    {
        let mut names: Vec<String> = Vec::new();
        let mut k: usize = 0;
        while k < ids.len()
            invariant
                self.wf(),
                forall|m: int| 0 <= m < ids@.len() ==> self.valid(#[trigger] ids@[m]),
                k <= ids@.len(),
                names@.len() == k,
                forall|m: int| 0 <= m < k ==> (#[trigger] names@[m])@ == self.rec(ids@[m]).name@,
            decreases ids@.len() - k,
        {
            let id = ids[k];
            assert(self.valid(id));
            let name = self.slots[id.index as usize].data.as_ref().unwrap().name.clone();
            names.push(name);
            k = k + 1;
        }
        names
    }

    /// A readable view of one node.
    pub fn inspect(&self, id: NodeId) -> (r: Result<NodeInspect, Error>)
        requires
            self.wf(),
        ensures
            r is Ok <==> self.valid(id),
            r matches Err(e) ==> e == self.lookup_error(id),
            r matches Ok(v) ==> {
                let n = self.rec(id);
                &&& v.id == n.id
                &&& v.name@ == n.name@
                &&& v.kind@ == n.kind@
                &&& v.status == n.status
                &&& v.version == n.version
                &&& shows_fingerprint(v.input_fingerprint, n.input_fingerprint)
                &&& shows_fingerprint(v.output_fingerprint, n.output_fingerprint)
                &&& names_of(*self, n.dependencies@, v.dependencies@)
                &&& names_of(*self, n.dependents@, v.dependents@)
                &&& (match n.last_invalidation {
                    Some(reason) => v.last_invalidation matches Some(s) && s@ == reason.description(),
                    None => v.last_invalidation is None,
                })
                &&& v.last_compute_nanos == n.last_compute_nanos
                &&& v.last_recompute_count == n.last_recompute_count
                &&& v.metadata@ == n.metadata@
            },
    {
        let n = self.node(id)?;
        proof {
            assert(self.live_at(id.index as int));
        }
        let dependencies = self.names(&n.dependencies);
        let dependents = self.names(&n.dependents);
        let last_invalidation = match &n.last_invalidation {
            Some(reason) => Some(reason.describe()),
            None => None,
        };
        Ok(NodeInspect {
            id: n.id,
            name: n.name.clone(),
            kind: n.kind.clone(),
            status: n.status,
            version: n.version,
            input_fingerprint: fingerprint_text(&n.input_fingerprint),
            output_fingerprint: fingerprint_text(&n.output_fingerprint),
            dependencies,
            dependents,
            last_invalidation,
            last_compute_nanos: n.last_compute_nanos,
            last_recompute_count: n.last_recompute_count,
            metadata: n.metadata.clone(),
        })
    }
}


impl Graph {
    proof fn lemma_succ_rank(&self, i: int, j: int)
        requires
            self.wf(),
            self.succ(i, j),
        ensures
            self.rank@[i] < self.rank@[j],
    {
        let u = self.rec_at(j).id;
        let k = choose|k: int| 0 <= k < self.rec_at(i).dependents@.len() && self.rec_at(i).dependents@[k] == u;
        assert(self.valid(u));
        assert(u.index == j);
        assert(self.rec(u).dependencies@.contains(self.rec_at(i).id));
        let m = choose|m: int| 0 <= m < self.rec_at(j).dependencies@.len() && self.rec_at(j).dependencies@[m] == self.rec_at(i).id;
        assert(self.rank@[self.rec_at(j).dependencies@[m].index as int] < self.rank@[j]);
    }

    proof fn lemma_walk_rank(&self, p: Seq<int>)
        requires
            self.wf(),
            self.is_walk(p),
            p.len() >= 2,
        ensures
            self.rank@[p[0]] < self.rank@[p.last()],
        decreases p.len(),
    {
        let q = p.drop_last();
        self.lemma_walk_step(p, p.len() - 2);
        self.lemma_succ_rank(p[p.len() - 2], p[p.len() - 1]);
        if q.len() >= 2 {
            assert(self.is_walk(q)) by {
                assert forall|k: int| 0 <= k < q.len() - 1 implies #[trigger] self.succ(q[k], q[k + 1]) by {
                    self.lemma_walk_step(p, k);
                }
            }
            self.lemma_walk_rank(q);
        }
    }
}

/// Two consistent graphs with the same live nodes, the same slots and the
/// same edges mark the same nodes when invalidated from the same seed.
pub proof fn lemma_same_edges_same_invalidation_set(
    g1: Graph,
    g2: Graph,
    seed: NodeId,
    include_seed: bool,
    mode: InvalidationMode,
)
    requires
        g1.wf(),
        g2.wf(),
        g1.slot_count() == g2.slot_count(),
        forall|x: NodeId| #[trigger] g2.valid(x) == g1.valid(x),
        forall|x: NodeId| g1.valid(x) ==> same_identity_edges(#[trigger] g2.rec(x), g1.rec(x)),
    ensures
        g1.invalidation_set(seed, include_seed, mode) == g2.invalidation_set(seed, include_seed, mode),
{
    assert forall|i: int| #[trigger] g1.live_at(i) == g2.live_at(i) by {
        if g1.live_at(i) {
            let x = g1.rec_at(i).id;
            assert(g1.valid(x));
            assert(g2.valid(x));
        }
        if g2.live_at(i) {
            let x = g2.rec_at(i).id;
            assert(g2.valid(x));
            assert(g1.valid(x));
        }
    }
    assert forall|i: int| #[trigger] g1.live_at(i) implies g2.rec_at(i).dependents == g1.rec_at(i).dependents
        && g2.rec_at(i).id == g1.rec_at(i).id by {
        let x = g1.rec_at(i).id;
        assert(g1.valid(x));
        assert(same_identity_edges(g2.rec(x), g1.rec(x)));
    }
    assert forall|i: int, j: int| #[trigger] g1.succ(i, j) == g2.succ(i, j) by {
        if g1.live_at(i) && g1.live_at(j) {
            assert(g2.rec_at(i).dependents == g1.rec_at(i).dependents);
            assert(g2.rec_at(j).id == g1.rec_at(j).id);
        }
    }
    assert forall|p: Seq<int>| #[trigger] g1.is_walk(p) == g2.is_walk(p) by {
        if g1.is_walk(p) {
            assert forall|k: int| 0 <= k < p.len() - 1 implies #[trigger] g2.succ(p[k], p[k + 1]) by {
                assert(g1.succ(p[k], p[k + 1]));
            }
        }
        if g2.is_walk(p) {
            assert forall|k: int| 0 <= k < p.len() - 1 implies #[trigger] g1.succ(p[k], p[k + 1]) by {
                assert(g2.succ(p[k], p[k + 1]));
            }
        }
    }
    assert forall|j: int| #[trigger] g1.reach_set(seed, include_seed).contains(j) implies g2.reach_set(seed, include_seed).contains(j) by {
        let p = choose|p: Seq<int>| #[trigger] g1.is_walk(p) && p[0] == seed.index && p.last() == j && (include_seed || p.len() >= 2);
        assert(g2.is_walk(p));
    }
    assert forall|j: int| #[trigger] g2.reach_set(seed, include_seed).contains(j) implies g1.reach_set(seed, include_seed).contains(j) by {
        let p = choose|p: Seq<int>| #[trigger] g2.is_walk(p) && p[0] == seed.index && p.last() == j && (include_seed || p.len() >= 2);
        assert(g1.is_walk(p));
    }
    assert(g1.reach_set(seed, include_seed) =~= g2.reach_set(seed, include_seed));
    assert(g1.valid(seed) == g2.valid(seed));
}

/// The dependencies of a live node are live.
pub proof fn lemma_dependencies_valid(g: Graph, x: NodeId)
    requires
        g.wf(),
        g.valid(x),
    ensures
        forall|k: int| 0 <= k < g.rec(x).dependencies@.len() ==> g.valid(#[trigger] g.rec(x).dependencies@[k]),
{
    assert forall|k: int| 0 <= k < g.rec(x).dependencies@.len() implies g.valid(#[trigger] g.rec(x).dependencies@[k]) by {
        assert(g.live_at(x.index as int));
        assert(g.rec_at(x.index as int).dependencies@[k] == g.rec(x).dependencies@[k]);
    }
}

/// A dependent of a live node lies downstream of it.
pub proof fn lemma_dependent_downstream(g: Graph, x: NodeId, y: NodeId)
    requires
        g.wf(),
        g.valid(x),
        g.rec(x).dependents@.contains(y),
    ensures
        g.valid(y),
        g.downstream(x, y),
{
    let k = choose|k: int| 0 <= k < g.rec(x).dependents@.len() && g.rec(x).dependents@[k] == y;
    assert(g.live_at(x.index as int));
    assert(g.rec_at(x.index as int).dependents@[k] == y);
    assert(g.valid(y));
    assert(g.live_at(y.index as int));
    assert(g.rec_at(y.index as int).id == y);
    let p = seq![x.index as int, y.index as int];
    assert(g.succ(p[0], p[1]));
    assert(g.is_walk(p));
}

/// Looking up an id that is not valid fails as a stale node within the
/// slots and as an unknown node beyond them.
pub proof fn lemma_lookup_error_kind(g: Graph, id: NodeId)
    ensures
        id.index < g.slot_count() ==> g.lookup_error(id) == Error::StaleNode(id),
        id.index >= g.slot_count() ==> g.lookup_error(id) == Error::UnknownNode(id),
{
}

/// A valid id lies within the slots; after its node is removed (which
/// keeps the slots), looking it up reports a stale node.
pub proof fn lemma_valid_within_slots(g: Graph, id: NodeId)
    requires
        g.valid(id),
    ensures
        id.index < g.slot_count(),
{
}

proof fn lemma_status_partition(
    s: Seq<Slot>,
    a: spec_fn(NodeStatus) -> bool,
    b: spec_fn(NodeStatus) -> bool,
    c: spec_fn(NodeStatus) -> bool,
    d: spec_fn(NodeStatus) -> bool,
)
    requires
        forall|x: NodeStatus| #![trigger a(x)] (if a(x) { 1int } else { 0int }) + (if b(x) { 1int } else { 0int })
            + (if c(x) { 1int } else { 0int }) + (if d(x) { 1int } else { 0int }) == 1,
    ensures
        count_status(s, a) + count_status(s, b) + count_status(s, c) + count_status(s, d) == count_live(s),
    decreases s.len(),
{
    if s.len() > 0 {
        lemma_status_partition(s.drop_last(), a, b, c, d);
        let x = status_of(s.last());
        assert((if a(x) { 1int } else { 0int }) + (if b(x) { 1int } else { 0int })
            + (if c(x) { 1int } else { 0int }) + (if d(x) { 1int } else { 0int }) == 1);
    }
}

/// Every live node is counted under exactly one status: the dirty (or
/// running), clean, failed and pending counts add up to the node count.
pub proof fn law_status_counts_sum(g: Graph, st: GraphStats)
    requires
        stats_of(g, st),
    ensures
        st.dirty_nodes + st.clean_nodes + st.failed_nodes + st.pending_nodes == st.total_nodes,
{
    lemma_status_partition(
        g.slots@,
        |s: NodeStatus| dirty_or_running(s),
        |s: NodeStatus| s is Clean,
        |s: NodeStatus| s is Failed,
        |s: NodeStatus| s is Pending,
    );
}

/// Nothing lies downstream of a node without dependents.
pub proof fn lemma_no_dependents_not_downstream(g: Graph, x: NodeId, y: NodeId)
    requires
        g.wf(),
        g.valid(x),
        g.rec(x).dependents@.len() == 0,
    ensures
        !g.downstream(x, y),
{
    if g.downstream(x, y) {
        let p = choose|p: Seq<int>| #[trigger] g.is_walk(p) && p.len() >= 2 && p[0] == x.index && p.last() == y.index;
        g.lemma_walk_step(p, 0);
        assert(g.rec_at(x.index as int) == g.rec(x));
        assert(g.rec_at(p[0]).dependents@.contains(g.rec_at(p[1]).id));
    }
}

/// An invalidation that leaves its seed out never reaches the seed again.
pub proof fn lemma_seed_not_marked(g: Graph, seed: NodeId, mode: InvalidationMode)
    requires
        g.wf(),
        g.valid(seed),
    ensures
        !g.invalidation_set(seed, false, mode).contains(seed.index as int),
{
    if mode == InvalidationMode::Eager && g.reach_set(seed, false).contains(seed.index as int) {
        let p = choose|p: Seq<int>| #[trigger] g.is_walk(p) && p[0] == seed.index && p.last() == seed.index && p.len() >= 2;
        assert(g.downstream(seed, seed));
        law_no_cycles(g, seed);
    }
}

/// A consistent graph has no cycle: no live node lies downstream of itself.
pub proof fn law_no_cycles(g: Graph, x: NodeId)
    requires
        g.wf(),
    ensures
        !g.downstream(x, x),
{
    if g.downstream(x, x) {
        let p = choose|p: Seq<int>| #[trigger] g.is_walk(p) && p.len() >= 2 && p[0] == x.index && p.last() == x.index;
        g.lemma_walk_rank(p);
    }
}

/// In a dirty schedule every node comes after each dirty node it depends on.
pub proof fn law_schedule_dependencies_first(g: Graph, order: Seq<NodeId>, a: int, b: int)
    requires
        is_dirty_schedule(g, order),
        0 <= a < order.len(),
        0 <= b < order.len(),
        g.rec(order[a]).dependencies@.contains(order[b]),
    ensures
        b < a,
{
    assert(is_ready(g, order.take(a), order[a]));
    assert(is_ready(g, order.take(b), order[b]));
    assert(dirty_node(g, order[b]));
    assert(order.take(a).contains(order[b]));
    let k = choose|k: int| 0 <= k < order.take(a).len() && order.take(a)[k] == order[b];
    if b >= a {
        if k != b {
            if k < b {
                assert(order.take(b)[k] == order[b]);
                assert(order.take(b).contains(order[b]));
            }
        }
    }
}

/// A live node never sits in the slot the next insert takes, so an insert
/// leaves every live node live.
pub proof fn lemma_valid_not_next(g: Graph, x: NodeId)
    requires
        g.wf(),
        g.valid(x),
    ensures
        x.index != g.next_id().index,
{
    if g.free@.len() > 0 {
        let k = g.free@.len() - 1;
        assert(g.free@[k] < g.slots@.len() && !g.slots@[g.free@[k] as int].live);
    }
}

/// The id a later insert hands out is never a stale id, so a removed
/// node's id stays stale.
pub proof fn law_next_id_fresh(g: Graph, x: NodeId)
    requires
        g.wf(),
        !g.valid(x),
        x.index < g.slot_count(),
        x.generation <= g.generation_at(x.index as int),
    ensures
        g.next_id() != x,
{
    if g.free@.len() > 0 {
        let i = g.free@.last();
        assert(g.free@[g.free@.len() - 1] == i);
    }
}

} // verus!
