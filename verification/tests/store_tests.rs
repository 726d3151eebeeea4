use agentflow_engine::generate_key_hint;
use agentflow_engine::history::ExecutionHistory;
use agentflow_engine::json::{decode_value, encode_value};
use agentflow_engine::models::{CleanupOptions, Execution, ExecutionSnapshot, ExecutionStatus,
    ExecutionSummary, NodeMetadata, NodeSnapshot, NodeStatus, SnapshotMetadata,
    SnapshotStorageOptions};
use agentflow_engine::registry::ExecutionManager;
use agentflow_engine::retention::cleanup_snapshots;
use agentflow_engine::snapcodec::snapshot_to_value;
use agentflow_engine::store::{AppError, SnapshotStore};
use agentflow_engine::storage::StorageType;
use agentflow_engine::timeline::{get_execution_timeline, get_node_details, get_node_icon};
use agentflow_engine::value::{Entry, Value};

fn obj(entries: Vec<(&str, Value)>) -> Value {
    let mut out: Vec<Entry> = Vec::new();
    for (k, v) in entries {
        out.push(Entry { key: k.to_string(), value: v });
    }
    Value::Obj(out)
}

fn s(text: &str) -> Value {
    Value::Str(text.to_string())
}

fn summary() -> ExecutionSummary {
    ExecutionSummary {
        total_nodes: 2,
        completed_nodes: 2,
        failed_nodes: 0,
        skipped_nodes: 0,
        total_tokens_used: Some(12),
    }
}

fn node_snap(id: &str, node_type: &str) -> NodeSnapshot {
    NodeSnapshot {
        node_id: id.to_string(),
        node_name: format!("{} name", id),
        node_type: node_type.to_string(),
        status: NodeStatus::Completed,
        started_at: 10,
        completed_at: Some(20),
        duration_ms: 10,
        inputs: obj(vec![("in", Value::Int(1))]),
        outputs: obj(vec![("out", s("ok"))]),
        resolved_config: None,
        error: None,
        metadata: Some(NodeMetadata {
            tokens_used: None,
            model: Some("m1".to_string()),
            prompt_tokens: None,
            completion_tokens: None,
            http_status_code: None,
            http_url: Some("https://x/1".to_string()),
            http_method: None,
            condition_branch: Some("true".to_string()),
            loop_iterations: None,
            current_iteration: None,
            retry_count: None,
        }),
        logs: None,
        is_breakpoint: None,
    }
}

fn snapshot(id: &str, status: ExecutionStatus, started_at: i64) -> ExecutionSnapshot {
    ExecutionSnapshot {
        execution_id: id.to_string(),
        workflow_id: "wf".to_string(),
        workflow_name: Some("demo".to_string()),
        workflow_version: Some(1),
        status,
        started_at,
        completed_at: Some(started_at + 5),
        duration_ms: Some(5),
        node_snapshots: vec![node_snap("n1", "llm"), node_snap("n2", "http")],
        execution_order: vec!["n1".to_string(), "n2".to_string()],
        current_node_id: None,
        inputs: obj(vec![("id", s("42"))]),
        outputs: obj(vec![("done", Value::Bool(true))]),
        variables: Value::Null,
        error: None,
        summary: summary(),
        metadata: SnapshotMetadata {
            created_at: started_at,
            version: "1".to_string(),
            compressed: Some(true),
            original_size: None,
            compressed_size: None,
            source: "desktop".to_string(),
        },
    }
}

fn options(compress: bool) -> SnapshotStorageOptions {
    SnapshotStorageOptions {
        compress: Some(compress),
        compression_level: Some(6),
        max_snapshots: None,
        max_age_days: None,
        exclude_sensitive_data: Some(false),
        sensitive_fields: None,
    }
}

fn deep_equal_snapshots(a: &ExecutionSnapshot, b: &ExecutionSnapshot) -> bool {
    snapshot_to_value(a).deep_eq(&snapshot_to_value(b))
}

#[test]
fn test_key_hint() {
    assert_eq!(generate_key_hint("sk-1234567890"), "****7890");
    assert_eq!(generate_key_hint("abc"), "****");
    assert_eq!(generate_key_hint(""), "****");
}

#[test]
fn value_text_round_trip() {
    let v = obj(vec![
        ("n", Value::Int(-12034)),
        ("t", Value::Bool(true)),
        ("z", Value::Null),
        ("txt", s("a \"quoted\" \\ line\nsnowman \u{2603} and beyond \u{1F600}")),
        ("arr", Value::Arr(vec![Value::Int(0), s(""), obj(vec![])])),
    ]);
    let text = encode_value(&v);
    let back = decode_value(&text).expect("canonical text decodes");
    assert!(back.deep_eq(&v));
}

#[test]
fn int_text_is_canonical() {
    let text: String = encode_value(&Value::Int(-123)).into_iter().collect();
    assert_eq!(text, "-123");
    let zero: String = encode_value(&Value::Int(0)).into_iter().collect();
    assert_eq!(zero, "0");
}

#[test]
fn save_then_get_round_trips_compressed() {
    let mut store = SnapshotStore::new();
    let snap = snapshot("e1", ExecutionStatus::Completed, 100);
    store.save(&snap, &options(true), 1000);
    let got = store.get(&"e1".to_string()).expect("the snapshot is there");
    assert!(deep_equal_snapshots(&got, &snap));
}

#[test]
fn save_then_get_round_trips_uncompressed() {
    let mut store = SnapshotStore::new();
    let snap = snapshot("e2", ExecutionStatus::Failed, 200);
    store.save(&snap, &options(false), 1000);
    let got = store.get(&"e2".to_string()).expect("the snapshot is there");
    assert!(deep_equal_snapshots(&got, &snap));
}

#[test]
fn get_missing_snapshot_is_not_found() {
    let store = SnapshotStore::new();
    match store.get(&"nope".to_string()) {
        Err(AppError::NotFound(_)) => {},
        other => panic!("expected a not-found error, got {:?}", other),
    }
}

#[test]
fn corrupt_blob_surfaces_as_error() {
    let mut store = SnapshotStore::new();
    let snap = snapshot("e3", ExecutionStatus::Completed, 300);
    store.save(&snap, &options(false), 1000);
    store.rows[0].data = vec![0xFF, 0x00, 0x99];
    match store.get(&"e3".to_string()) {
        Err(AppError::Serialization(_)) => {},
        other => panic!("expected a serialization error, got {:?}", other),
    }
}

#[test]
fn recompress_keeps_the_snapshot() {
    let mut store = SnapshotStore::new();
    let snap = snapshot("e4", ExecutionStatus::Completed, 400);
    store.save(&snap, &options(false), 1000);
    let result = store.recompress(&"e4".to_string(), Some(9), 2000).expect("recompression works");
    assert_eq!(result.execution_id, "e4");
    let got = store.get(&"e4".to_string()).expect("still there");
    assert!(deep_equal_snapshots(&got, &snap));
}

#[test]
fn cleanup_with_zero_count_deletes_everything() {
    let mut store = SnapshotStore::new();
    store.save(&snapshot("a", ExecutionStatus::Completed, 10), &options(true), 0);
    store.save(&snapshot("b", ExecutionStatus::Failed, 20), &options(true), 0);
    store.save(&snapshot("c", ExecutionStatus::Completed, 30), &options(true), 0);
    let opts = CleanupOptions { max_count: Some(0), ..Default::default() };
    let result = cleanup_snapshots(&mut store, &opts, 1000);
    assert_eq!(result.deleted_count, 3);
    assert_eq!(result.deleted_ids, vec!["a", "b", "c"]);
    assert_eq!(store.rows.len(), 0);
}

#[test]
fn dry_run_reports_the_same_plan_and_changes_nothing() {
    let mut store = SnapshotStore::new();
    store.save(&snapshot("a", ExecutionStatus::Completed, 10), &options(true), 0);
    store.save(&snapshot("b", ExecutionStatus::Failed, 20), &options(true), 0);
    let dry = CleanupOptions { failed_only: Some(true), dry_run: Some(true), ..Default::default() };
    let real = CleanupOptions {
        failed_only: Some(true),
        dry_run: Some(false),
        ..Default::default()
    };
    let planned = cleanup_snapshots(&mut store, &dry, 1000);
    assert_eq!(store.rows.len(), 2);
    let done = cleanup_snapshots(&mut store, &real, 1000);
    assert_eq!(planned.deleted_ids, done.deleted_ids);
    assert_eq!(planned.freed_bytes, done.freed_bytes);
    assert_eq!(planned.deleted_count, done.deleted_count);
    assert_eq!(store.rows.len(), 1);
    assert_eq!(store.rows[0].execution_id, "a");
}

#[test]
fn cleanup_count_breaks_ties_by_catalogue_position() {
    let mut store = SnapshotStore::new();
    store.save(&snapshot("a", ExecutionStatus::Completed, 10), &options(true), 0);
    store.save(&snapshot("b", ExecutionStatus::Completed, 10), &options(true), 0);
    let opts = CleanupOptions { max_count: Some(1), ..Default::default() };
    let result = cleanup_snapshots(&mut store, &opts, 1000);
    // the earlier catalogue row counts as the more recent of the tie
    assert_eq!(result.deleted_ids, vec!["b"]);
    assert_eq!(store.rows.len(), 1);
    assert_eq!(store.rows[0].execution_id, "a");
}

#[test]
fn cleanup_by_age_removes_old_rows() {
    let mut store = SnapshotStore::new();
    store.save(&snapshot("old", ExecutionStatus::Completed, 0), &options(true), 0);
    store.save(
        &snapshot("new", ExecutionStatus::Completed, 10 * 86400000),
        &options(true),
        0,
    );
    let opts = CleanupOptions { max_age_days: Some(2), ..Default::default() };
    let result = cleanup_snapshots(&mut store, &opts, 11 * 86400000);
    assert_eq!(result.deleted_ids, vec!["old"]);
    assert_eq!(store.rows.len(), 1);
}

#[test]
fn cancel_is_idempotent() {
    let mut manager = ExecutionManager::new();
    manager.register("r1".to_string(), "wf".to_string(), 0);
    assert!(manager.cancel(&"r1".to_string()));
    let once = manager.get(&"r1".to_string()).unwrap().cancelled;
    assert!(manager.cancel(&"r1".to_string()));
    let twice = manager.get(&"r1".to_string()).unwrap().cancelled;
    assert!(once && twice);
    assert_eq!(manager.count(), 1);
    assert!(!manager.cancel(&"missing".to_string()));
}

#[test]
fn registry_register_remove_and_list() {
    let mut manager = ExecutionManager::new();
    manager.register("r1".to_string(), "wf1".to_string(), 1);
    manager.register("r2".to_string(), "wf2".to_string(), 2);
    assert_eq!(manager.count(), 2);
    assert_eq!(manager.list_running(), vec!["r1", "r2"]);
    let removed = manager.remove(&"r1".to_string()).unwrap();
    assert_eq!(removed.id, "r1");
    assert_eq!(manager.count(), 1);
    assert!(manager.get(&"r1".to_string()).is_none());
}

#[test]
fn history_save_get_and_stats() {
    let mut history = ExecutionHistory::new();
    let record = |id: &str, status| Execution {
        id: id.to_string(),
        workflow_id: "wf".to_string(),
        status,
        inputs: Value::Null,
        outputs: None,
        error: None,
        started_at: 0,
        completed_at: None,
        duration_ms: None,
        node_results: Vec::new(),
    };
    history.save_execution(record("a", ExecutionStatus::Completed));
    history.save_execution(record("b", ExecutionStatus::Failed));
    history.save_execution(record("c", ExecutionStatus::Completed));
    history.save_execution(record("b", ExecutionStatus::Completed));
    assert_eq!(history.records.len(), 3);
    assert!(matches!(
        history.get_execution(&"b".to_string()).unwrap().status,
        ExecutionStatus::Completed
    ));
    let stats = history.execution_stats(1);
    assert_eq!(stats.total, 3);
    assert_eq!(stats.completed, 3);
    assert_eq!(stats.failed, 0);
    assert_eq!(stats.running, 1);
    let listed = history.list_executions(Some(&"wf".to_string()), 2);
    assert_eq!(listed.len(), 2);
}

#[test]
fn list_executions_newest_first() {
    let mut history = ExecutionHistory::new();
    let record = |id: &str, started_at: i64| Execution {
        id: id.to_string(),
        workflow_id: "wf".to_string(),
        status: ExecutionStatus::Completed,
        inputs: Value::Null,
        outputs: None,
        error: None,
        started_at,
        completed_at: None,
        duration_ms: None,
        node_results: Vec::new(),
    };
    history.save_execution(record("old", 10));
    history.save_execution(record("newest", 30));
    history.save_execution(record("mid", 20));
    let listed = history.list_executions(None, 10);
    assert_eq!(listed, vec!["newest", "mid", "old"]);
    let limited = history.list_executions(Some(&"wf".to_string()), 1);
    assert_eq!(limited, vec!["newest"]);
}

#[test]
fn timeline_follows_execution_order() {
    let snap = snapshot("e5", ExecutionStatus::Completed, 10);
    let view = get_execution_timeline(&snap);
    assert_eq!(view.execution_id, "e5");
    assert_eq!(view.steps.len(), 2);
    assert_eq!(view.steps[0].node_id, "n1");
    assert_eq!(view.steps[0].node_icon.as_deref(), Some("brain"));
    assert_eq!(view.steps[0].description.as_deref(), Some("model: m1"));
    assert_eq!(view.steps[1].node_id, "n2");
    assert_eq!(view.steps[1].node_icon.as_deref(), Some("globe"));
    assert_eq!(view.steps[1].description.as_deref(), Some("request: https://x/1"));
}

#[test]
fn node_details_by_id() {
    let snap = snapshot("e6", ExecutionStatus::Completed, 10);
    let n = get_node_details(&snap, &"n2".to_string()).expect("the node ran");
    assert_eq!(n.node_type, "http");
    assert!(get_node_details(&snap, &"zz".to_string()).is_err());
}

#[test]
fn node_icons_by_type() {
    assert_eq!(get_node_icon("condition").as_deref(), Some("git-branch"));
    assert_eq!(get_node_icon("anything").as_deref(), Some("box"));
}

#[test]
fn storage_dir_names() {
    assert_eq!(StorageType::Workflows.dir_name(), "workflows");
    assert_eq!(StorageType::Temp.dir_name(), "temp");
}

#[test]
fn list_snapshots_pages_newest_first() {
    let mut store = SnapshotStore::new();
    store.save(&snapshot("a", ExecutionStatus::Completed, 10), &options(true), 0);
    store.save(&snapshot("b", ExecutionStatus::Completed, 20), &options(true), 0);
    store.save(&snapshot("c", ExecutionStatus::Completed, 30), &options(true), 0);
    let all = store.list_snapshots(None, 10, 0);
    assert_eq!(all.len(), 3);
    assert_eq!(all[0].execution_id, "c");
    assert_eq!(all[1].execution_id, "b");
    assert_eq!(all[2].execution_id, "a");
    let page = store.list_snapshots(Some(&"wf".to_string()), 2, 1);
    assert_eq!(page.len(), 2);
    assert_eq!(page[0].execution_id, "b");
    assert_eq!(page[1].execution_id, "a");
    let none = store.list_snapshots(Some(&"other".to_string()), 10, 0);
    assert!(none.is_empty());
}

#[test]
fn storage_stats_report_counts_and_range() {
    let mut store = SnapshotStore::new();
    assert_eq!(store.storage_stats().total_count, 0);
    store.save(&snapshot("a", ExecutionStatus::Completed, 10), &options(true), 0);
    store.save(&snapshot("b", ExecutionStatus::Completed, 30), &options(false), 0);
    let stats = store.storage_stats();
    assert_eq!(stats.total_count, 2);
    assert_eq!(stats.oldest_snapshot, Some(10));
    assert_eq!(stats.newest_snapshot, Some(30));
    assert!(stats.total_original_size > 0);
    assert!(stats.total_compressed_size > 0);
}
