use evs_delta::error::Error;
use evs_delta::graph::{Graph, GraphLimits};
use evs_delta::invalidate::InvalidationMode;
use evs_delta::status::{status_word, InvalidationReason, NodeStatus};
use evs_delta::topo::topological_dirty;

#[test]
fn cycle_rejected() {
    let mut g = Graph::new();
    let a = g.insert("a", "t").unwrap();
    let b = g.insert("b", "t").unwrap();
    g.add_dependency(b, a).unwrap();
    let err = g.add_dependency(a, b).unwrap_err();
    assert!(matches!(err, Error::Cycle(_)));
}

#[test]
fn stale_id_after_remove() {
    let mut g = Graph::new();
    let a = g.insert("a", "t").unwrap();
    g.remove(a).unwrap();
    assert!(matches!(g.node(a), Err(Error::StaleNode(_))));
}

#[test]
fn eager_invalidation_fanout() {
    let mut g = Graph::new();
    let src = g.insert("src", "input").unwrap();
    let t = g.insert("tok", "lex").unwrap();
    let p = g.insert("ast", "parse").unwrap();
    g.add_dependency(t, src).unwrap();
    g.add_dependency(p, t).unwrap();
    let report = g
        .invalidate(
            src,
            false,
            InvalidationMode::Eager,
            InvalidationReason::InputChanged,
        )
        .unwrap();
    assert_eq!(report.fanout, 2);
    assert_eq!(g.node(t).unwrap().status, NodeStatus::Dirty);
    assert_eq!(g.node(p).unwrap().status, NodeStatus::Dirty);
    assert_eq!(g.node(src).unwrap().status, NodeStatus::Pending);
}

#[test]
fn orders_dependencies_first() {
    let mut g = Graph::new();
    let a = g.insert("a", "input").unwrap();
    let b = g.insert("b", "lex").unwrap();
    let c = g.insert("c", "parse").unwrap();
    g.add_dependency(b, a).unwrap();
    g.add_dependency(c, b).unwrap();
    g.node_mut(a).unwrap().status = NodeStatus::Dirty;
    g.node_mut(b).unwrap().status = NodeStatus::Dirty;
    g.node_mut(c).unwrap().status = NodeStatus::Dirty;
    let s = topological_dirty(&g).unwrap();
    assert_eq!(s.order, vec![a, b, c]);
}

#[test]
fn self_dependency_is_a_cycle() {
    let mut g = Graph::new();
    let a = g.insert("a", "t").unwrap();
    assert!(matches!(g.add_dependency(a, a), Err(Error::Cycle(_))));
}

#[test]
fn unknown_node_is_reported() {
    let mut g = Graph::new();
    let a = g.insert("a", "t").unwrap();
    let other = evs_delta::id::NodeId::new(7, 1);
    assert!(matches!(g.node(other), Err(Error::UnknownNode(_))));
    assert!(g.add_dependency(a, other).is_err());
}

#[test]
fn node_limit_is_enforced() {
    let mut g = Graph::with_limits(GraphLimits {
        max_nodes: 1,
        max_edges: 10,
        max_invalidation_nodes: 10,
        max_schedule_nodes: 10,
    });
    g.insert("a", "t").unwrap();
    assert!(matches!(g.insert("b", "t"), Err(Error::Limit(_))));
}

#[test]
fn invalidation_includes_seed_when_asked() {
    let mut g = Graph::new();
    let src = g.insert("src", "input").unwrap();
    let t = g.insert("tok", "lex").unwrap();
    g.add_dependency(t, src).unwrap();
    let report = g
        .invalidate(src, true, InvalidationMode::Eager, InvalidationReason::Manual)
        .unwrap();
    assert_eq!(report.fanout, 2);
    assert_eq!(g.node(src).unwrap().status, NodeStatus::Dirty);
    assert_eq!(g.node(t).unwrap().last_invalidation, Some(InvalidationReason::Manual));
}

#[test]
fn removed_slot_is_reused_with_new_generation() {
    let mut g = Graph::new();
    let a = g.insert("a", "t").unwrap();
    g.remove(a).unwrap();
    let b = g.insert("b", "t").unwrap();
    assert_eq!(b.index, a.index);
    assert!(b.generation > a.generation);
    assert_eq!(g.live_count(), 1);
}

#[test]
fn stats_count_edges_and_depth() {
    let mut g = Graph::new();
    let a = g.insert("a", "input").unwrap();
    let b = g.insert("b", "lex").unwrap();
    let c = g.insert("c", "parse").unwrap();
    g.add_dependency(b, a).unwrap();
    g.add_dependency(c, b).unwrap();
    let s = g.stats();
    assert_eq!(s.total_nodes, 3);
    assert_eq!(s.dependency_edges, 2);
    assert_eq!(s.max_dependency_depth, 2);
    assert_eq!(s.pending_nodes, 3);
    // reaching follows dependents, downstream from an input
    assert!(g.reaches(a, c).unwrap());
    assert!(!g.reaches(c, a).unwrap());
}

#[test]
fn schedule_is_empty_when_clean() {
    let mut g = Graph::new();
    let a = g.insert("a", "t").unwrap();
    g.node_mut(a).unwrap().status = NodeStatus::Clean;
    assert!(g.schedule_dirty().unwrap().order.is_empty());
}

#[test]
fn status_words() {
    assert_eq!(status_word(NodeStatus::Clean), "clean");
    assert_eq!(status_word(NodeStatus::Dirty), "invalidated");
    assert_eq!(status_word(NodeStatus::Computing), "recomputed");
}

#[test]
fn status_counts_add_up_to_total() {
    let mut g = Graph::new();
    let a = g.insert("a", "input").unwrap();
    let b = g.insert("b", "lex").unwrap();
    let _c = g.insert("c", "parse").unwrap();
    g.add_dependency(b, a).unwrap();
    g.invalidate(a, true, InvalidationMode::Eager, InvalidationReason::InputChanged).unwrap();
    let s = g.stats();
    assert_eq!(s.dirty_nodes + s.clean_nodes + s.failed_nodes + s.pending_nodes, s.total_nodes);
    assert_eq!(g.live_ids().len(), g.live_count());
}

#[test]
fn removed_id_reads_as_stale() {
    let mut g = Graph::new();
    let a = g.insert("a", "t").unwrap();
    g.remove(a).unwrap();
    assert!(matches!(g.node(a), Err(Error::StaleNode(_))));
}
