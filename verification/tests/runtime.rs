use evs_delta::delta::{apply_delta, Delta};
use evs_delta::error::Error;
use evs_delta::id::NodeIdAllocator;
use evs_delta::install::{cli_binary_name, evs_delta_home, profile_bin_path, repo_root_from_cli_manifest};
use evs_delta::runtime::{ChangeSummary, ComputeCtx, ComputeMode, LogLevel};
use evs_delta::store::{MemoryStore, PersistentStore, Store};
use evs_delta::workload::{edit_at, generate, workload_names, WorkloadKind};

#[test]
fn roundtrip() {
    let mut s = MemoryStore::new();
    let mut a = NodeIdAllocator::default();
    let id = a.allocate();
    s.insert(id, Box::new(String::from("hi")));
    assert_eq!(s.get_as(id).map(|v| v.as_str()), Some("hi"));
}

#[test]
fn store_read_after_write_and_remove() {
    let mut s: MemoryStore<u32> = MemoryStore::new();
    let mut a = NodeIdAllocator::default();
    let x = a.allocate();
    let y = a.allocate();
    s.insert(x, 1);
    s.insert(y, 2);
    s.insert(x, 3);
    assert_eq!(s.get_as(x), Some(&3));
    assert_eq!(s.get_as(y), Some(&2));
    assert_eq!(Store::len(&s), 2);
    s.remove(x);
    assert!(!s.contains(x));
    assert!(s.contains(y));
    s.clear();
    assert!(Store::is_empty(&s));
}

#[test]
fn persistence_is_refused() {
    match PersistentStore::<u32>::open("/tmp/store") {
        Err(Error::Unsupported(m)) => {
            assert_eq!(m, "persistence is deferred (phase 14); use MemoryStore")
        }
        _ => panic!("persistence must be refused"),
    }
}

#[test]
fn log_levels_are_ordered() {
    assert!(LogLevel::Debug.allows(LogLevel::Normal));
    assert!(LogLevel::Normal.allows(LogLevel::Normal));
    assert!(!LogLevel::Normal.allows(LogLevel::Verbose));
    assert!(!LogLevel::Disabled.allows(LogLevel::Normal));
    assert_eq!(LogLevel::default(), LogLevel::Normal);
}

#[test]
fn change_summary_defaults_to_zero() {
    let c = ChangeSummary::default();
    assert_eq!(c.inserted_chars, 0);
    assert_eq!(c.deleted_bytes, 0);
}

#[test]
fn compute_ctx_reads_inputs() {
    let mut store: MemoryStore<i32> = MemoryStore::new();
    let mut a = NodeIdAllocator::default();
    let src = a.allocate();
    let missing = a.allocate();
    let me = a.allocate();
    store.insert(src, 3);
    let inputs = vec![src, missing];
    let prev = 6;
    let ctx = ComputeCtx {
        node: me,
        inputs: &inputs,
        store: &store,
        previous: Some(&prev),
        delta: None,
        mode: ComputeMode::Incremental,
    };
    assert_eq!(*ctx.input(0).unwrap(), 3);
    assert!(matches!(ctx.input(1), Err(Error::TypeMismatch(id)) if id == missing));
    match ctx.input(5) {
        Err(Error::Computation(m)) => assert_eq!(m, "missing input 5"),
        _ => panic!("expected a missing input"),
    }
    assert_eq!(ctx.previous_as(), Some(&6));
}

#[test]
fn kind_names_roundtrip() {
    let names = workload_names();
    assert_eq!(names.len(), 11);
    for n in names {
        let k = WorkloadKind::parse(n).unwrap();
        assert_eq!(k.as_str(), n);
    }
    assert!(WorkloadKind::parse("nope").is_none());
    assert_eq!(WorkloadKind::parse("random_edit").unwrap(), WorkloadKind::RandomEdit);
}

#[test]
fn edit_at_places() {
    let d = edit_at("abcd", "begin");
    assert_eq!(apply_delta("abcd", &d).unwrap().0, "xabcd");
    let d = edit_at("abcd", "end");
    assert_eq!(apply_delta("abcd", &d).unwrap().0, "abcdx");
    let d = edit_at("abcd", "middle");
    assert_eq!(apply_delta("abcd", &d).unwrap().0, "abxcd");
}

#[test]
fn text_smoke_workload() {
    let w = generate(WorkloadKind::TextSmoke, 2048, 1);
    assert_eq!(w.name, "text-smoke");
    assert_eq!(w.kind, "text-smoke");
    assert!(w.initial.starts_with("let v0 = 0;\nlet v1 = 1;\n"));
    assert!(w.initial.len() >= 2048);
    assert_eq!(w.size_bytes, w.initial.len());
    assert_eq!(w.deltas.len(), 1);
    match &w.deltas[0] {
        Delta::Insert { offset, text } => {
            assert_eq!(*offset, w.initial.len() / 2);
            assert_eq!(text, "x");
        }
        _ => panic!("expected an insertion"),
    }
}

#[test]
fn small_sizes_grow_to_32_bytes() {
    let w = generate(WorkloadKind::SingleLine, 0, 7);
    assert_eq!(w.initial, "let v0 = 0;\nlet v1 = 1;\nlet v2 = 2;\n");
    assert_eq!(w.size_bytes, 36);
    assert_eq!(w.seed, 7);
}

#[test]
fn single_token_edits_inside_v10() {
    let w = generate(WorkloadKind::SingleToken, 4096, 1);
    let at = w.initial.find("v10").unwrap() + 1;
    match &w.deltas[0] {
        Delta::Insert { offset, text } => {
            assert_eq!(*offset, at);
            assert_eq!(text, "zz");
        }
        _ => panic!("expected an insertion"),
    }
}

#[test]
fn function_body_and_fanout_workloads() {
    let w = generate(WorkloadKind::FunctionBody, 64, 1);
    assert!(w.initial.starts_with("fn foo() {\nlet v0 = 0;\n"));
    assert!(w.initial.ends_with("\n}\n"));
    match &w.deltas[0] {
        Delta::Insert { offset, .. } => assert_eq!(*offset, 11),
        _ => panic!("expected an insertion"),
    }
    let g = generate(WorkloadKind::GlobalSymbol, 40, 1);
    assert_eq!(g.initial, "fn foo() {}\nfoo();\nfoo();\nfoo();\nfoo();\n");
    assert!(matches!(&g.deltas[0], Delta::Replace { start: 3, end: 6, .. }));
}

#[test]
fn large_edits() {
    let w = generate(WorkloadKind::LargeInsert, 256, 1);
    match &w.deltas[0] {
        Delta::Insert { text, .. } => assert_eq!(text.len(), 16 * 200),
        _ => panic!("expected an insertion"),
    }
    let d = generate(WorkloadKind::LargeDelete, 256, 1);
    let len = d.initial.len();
    assert!(matches!(&d.deltas[0], Delta::Delete { start, end } if *start == len / 4 && *end == len / 4 + len / 2));
}

#[test]
fn random_edits_apply_in_order() {
    let w = generate(WorkloadKind::RandomEdit, 128, 42);
    assert_eq!(w.deltas.len(), 8);
    let mut text = w.initial.clone();
    for d in &w.deltas {
        text = apply_delta(&text, d).unwrap().0;
    }
    assert_eq!(text.len(), w.initial.len() + 8);
    let again = generate(WorkloadKind::RandomEdit, 128, 42);
    let offsets = |w: &evs_delta::workload::Workload| -> Vec<usize> {
        w.deltas
            .iter()
            .map(|d| match d {
                Delta::Insert { offset, .. } => *offset,
                _ => usize::MAX,
            })
            .collect()
    };
    assert_eq!(offsets(&w), offsets(&again));
}

#[test]
fn home_directory_choice() {
    assert_eq!(evs_delta_home(None, Some("/home/u")), Some("/home/u/.evs-delta".to_string()));
    assert_eq!(evs_delta_home(Some(""), Some("/home/u")), Some("/home/u/.evs-delta".to_string()));
    assert_eq!(evs_delta_home(Some("/p"), Some("/home/u")), Some("/p/.evs-delta".to_string()));
    assert_eq!(evs_delta_home(None, Some("")), None);
    assert_eq!(evs_delta_home(None, None), None);
}

#[test]
fn build_paths() {
    assert_eq!(repo_root_from_cli_manifest("/repo/crates/delta-cli"), "/repo");
    assert_eq!(repo_root_from_cli_manifest("delta-cli"), "delta-cli");
    assert_eq!(profile_bin_path("/t/debug/build/pkg/out", false), "/t/debug/delta-cli");
    assert_eq!(profile_bin_path("/t/debug/build/pkg/out", true), "/t/debug/delta-cli.exe");
    assert_eq!(profile_bin_path("out", false), "out/delta-cli");
    assert_eq!(cli_binary_name(true), "delta-cli.exe");
    assert_eq!(cli_binary_name(false), "delta-cli");
}


#[test]
fn smoke_compare_is_correct() {
    let w = generate(WorkloadKind::TextSmoke, 2048, 1);
    let runs = evs_delta::compare::compare_runs(&w).unwrap();
    assert!(runs.correct);
    assert_eq!(runs.full.source, runs.incremental.source);
}

#[test]
fn compare_every_workload_kind() {
    for name in workload_names() {
        let w = generate(WorkloadKind::parse(name).unwrap(), 512, 3);
        let runs = evs_delta::compare::compare_runs(&w).unwrap();
        assert!(runs.correct, "{name}");
        assert_eq!(runs.last_incremental.is_some(), !w.deltas.is_empty());
    }
}

#[test]
fn compare_refuses_non_ascii() {
    let mut w = generate(WorkloadKind::TextSmoke, 2048, 1);
    w.initial = "é".to_string();
    assert!(matches!(evs_delta::compare::compare_runs(&w), Err(Error::Unsupported(_))));
}

#[test]
fn generated_edits_apply_in_turn() {
    for name in workload_names() {
        for size in [0usize, 32, 100, 777] {
            for seed in [0u64, 1, 99, u64::MAX] {
                let w = generate(WorkloadKind::parse(name).unwrap(), size, seed);
                let mut text = w.initial.clone();
                for d in &w.deltas {
                    let (next, _) = apply_delta(&text, d).unwrap();
                    text = next;
                }
            }
        }
    }
}
