use evs_delta::engine::EngineCore;
use evs_delta::error::Error;
use evs_delta::metrics::WorkMetrics;
use evs_delta::runtime::{Computation, ComputeCtx, ComputeOutput, LogLevel};
use evs_delta::status::NodeStatus;
use std::time::Instant;

struct Double;

impl Computation<i32> for Double {
    fn name(&self) -> &str {
        "double"
    }
    fn kind(&self) -> &str {
        "math"
    }
    fn compute(&self, ctx: ComputeCtx<'_, i32>) -> Result<ComputeOutput<i32>, Error> {
        let n: &i32 = ctx.input(0)?;
        let mut work = WorkMetrics::zero();
        work.items_recomputed = 1;
        work.items_total = 1;
        Ok(ComputeOutput { value: n * 2, fingerprint: None, work })
    }
}

struct Broken;

impl Computation<i32> for Broken {
    fn name(&self) -> &str {
        "broken"
    }
    fn kind(&self) -> &str {
        "math"
    }
    fn compute(&self, _ctx: ComputeCtx<'_, i32>) -> Result<ComputeOutput<i32>, Error> {
        Err(Error::Computation("no".to_string()))
    }
}

/// Declines to work incrementally, so the full computation answers.
struct Declines;

impl Computation<i32> for Declines {
    fn name(&self) -> &str {
        "plus_one"
    }
    fn kind(&self) -> &str {
        "math"
    }
    fn compute(&self, ctx: ComputeCtx<'_, i32>) -> Result<ComputeOutput<i32>, Error> {
        let n: &i32 = ctx.input(0)?;
        Ok(ComputeOutput { value: n + 1, fingerprint: None, work: WorkMetrics::zero() })
    }
    fn compute_incremental(&self, _ctx: ComputeCtx<'_, i32>) -> Result<Option<ComputeOutput<i32>>, Error> {
        Ok(None)
    }
}

fn update(engine: &mut EngineCore<i32>, full: bool) -> evs_delta::engine::RecomputeCounts {
    let started = Instant::now();
    let st = engine.prepare().unwrap();
    let dirty = st.dirty_nodes + st.pending_nodes + st.failed_nodes;
    let label = if full { "full" } else { "incremental" };
    engine.recompute(full, label, dirty, &started).unwrap()
}

fn no_node_waits(engine: &EngineCore<i32>) -> bool {
    engine.graph().live_ids().iter().all(|id| {
        let s = engine.graph().node(*id).unwrap().status;
        s != NodeStatus::Pending && s != NodeStatus::Dirty
    })
}

#[test]
fn full_and_incremental_agree() {
    let mut engine: EngineCore<i32> = EngineCore::new();
    let src = engine.register_input("n", "input", 3).unwrap();
    let out = engine.register(Box::new(Double), &[src]).unwrap();
    update(&mut engine, false);
    assert_eq!(*engine.value(out).unwrap(), 6);
    engine.input_changed(src, 5, None).unwrap();
    update(&mut engine, false);
    assert_eq!(*engine.value(out).unwrap(), 10);
    update(&mut engine, true);
    assert_eq!(*engine.value(out).unwrap(), 10);
}

#[test]
fn recompute_leaves_nothing_waiting() {
    let mut engine: EngineCore<i32> = EngineCore::new();
    let a = engine.register_input("a", "input", 1).unwrap();
    let b = engine.register(Box::new(Double), &[a]).unwrap();
    let c = engine.register(Box::new(Double), &[b]).unwrap();
    let bad = engine.register(Box::new(Broken), &[a]).unwrap();
    let counts = update(&mut engine, false);
    assert!(no_node_waits(&engine));
    assert_eq!(counts.recomputed_nodes, 2);
    assert_eq!(counts.failed_nodes, 1);
    assert_eq!(counts.invalidated_nodes, 3);
    assert_eq!(counts.total_nodes, 4);
    assert_eq!(*engine.value(c).unwrap(), 4);
    assert_eq!(engine.graph().node(bad).unwrap().status, NodeStatus::Failed);
    assert_eq!(engine.graph().node(b).unwrap().version.get(), 1);
}

#[test]
fn full_recompute_runs_every_derived_node() {
    let mut engine: EngineCore<i32> = EngineCore::new();
    let a = engine.register_input("a", "input", 2).unwrap();
    let b = engine.register(Box::new(Declines), &[a]).unwrap();
    update(&mut engine, false);
    assert_eq!(*engine.value(b).unwrap(), 3);
    let counts = update(&mut engine, true);
    assert_eq!(counts.recomputed_nodes, 1);
    assert_eq!(engine.graph().node(b).unwrap().version.get(), 2);
    assert_eq!(engine.graph().node(a).unwrap().version.get(), 1);
    let counts = update(&mut engine, false);
    assert_eq!(counts.recomputed_nodes, 0);
}

#[test]
fn only_inputs_take_values() {
    let mut engine: EngineCore<i32> = EngineCore::new();
    let a = engine.register_input("a", "input", 2).unwrap();
    let b = engine.register(Box::new(Double), &[a]).unwrap();
    match engine.input_changed(b, 9, None) {
        Err(Error::Graph(m)) => assert_eq!(m, format!("{} is not an input node", b.label())),
        _ => panic!("a derived node is not an input"),
    }
    assert!(engine.is_input(a));
    assert!(!engine.is_input(b));
}

#[test]
fn decision_is_logged() {
    let mut engine: EngineCore<i32> = EngineCore::new();
    engine.set_log_level(LogLevel::Verbose);
    let a = engine.register_input("a", "input", 2).unwrap();
    engine.register(Box::new(Double), &[a]).unwrap();
    let counts = update(&mut engine, false);
    assert_eq!(counts.log, vec!["decision=incremental".to_string(), "schedule 1 nodes".to_string()]);
}

#[test]
fn reset_forgets_everything() {
    let mut engine: EngineCore<i32> = EngineCore::new();
    let a = engine.register_input("a", "input", 2).unwrap();
    engine.reset();
    assert!(engine.value(a).is_none());
    assert!(engine.graph().live_ids().is_empty());
}
