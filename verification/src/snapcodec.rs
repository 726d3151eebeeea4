//! The canonical value form of a run snapshot: every record is written as a
//! fixed-order array, so that a snapshot and its stored form determine each
//! other. An optional value field collapses `Some(Null)` and `None`, as any
//! JSON encoding must.

use vstd::prelude::*;

use crate::models::{ExecutionSnapshot, ExecutionStatus, ExecutionSummary, NodeError, NodeLogEntry,
    NodeMetadata, NodeSnapshot, NodeStatus, SnapshotError, SnapshotMetadata};
use crate::value::{arr_view, lemma_arr_view, Value, ValueSpec};

verus! {

broadcast use vstd::seq::axiom_seq_index_decreases, vstd::seq::axiom_seq_subrange_decreases, vstd::std_specs::vec::axiom_vec_decreases_to_view, vstd::std_specs::vec::axiom_spec_len;

// ===== Field models =====

/// An optional integer: null when absent.
pub open spec fn oi_model(o: Option<i64>) -> ValueSpec {
    match o {
        Some(x) => ValueSpec::Int(x as int),
        None => ValueSpec::Null,
    }
}

/// An optional string: null when absent.
pub open spec fn os_model(o: Option<String>) -> ValueSpec {
    match o {
        Some(s) => ValueSpec::Str(s@),
        None => ValueSpec::Null,
    }
}

/// An optional flag: null when absent.
pub open spec fn ob_model(o: Option<bool>) -> ValueSpec {
    match o {
        Some(b) => ValueSpec::Bool(b),
        None => ValueSpec::Null,
    }
}

/// An optional value: null when absent; `Some(Null)` collapses to null.
pub open spec fn ov_model(o: Option<Value>) -> ValueSpec {
    match o {
        Some(v) => v.view_spec(),
        None => ValueSpec::Null,
    }
}

/// A run status, as a small code.
pub open spec fn status_model(s: ExecutionStatus) -> ValueSpec {
    match s {
        ExecutionStatus::Pending => ValueSpec::Int(0),
        ExecutionStatus::Running => ValueSpec::Int(1),
        ExecutionStatus::Completed => ValueSpec::Int(2),
        ExecutionStatus::Failed => ValueSpec::Int(3),
        ExecutionStatus::Cancelled => ValueSpec::Int(4),
    }
}

/// A node status, as a small code.
pub open spec fn node_status_model(s: NodeStatus) -> ValueSpec {
    match s {
        NodeStatus::Pending => ValueSpec::Int(0),
        NodeStatus::Running => ValueSpec::Int(1),
        NodeStatus::Completed => ValueSpec::Int(2),
        NodeStatus::Failed => ValueSpec::Int(3),
        NodeStatus::Skipped => ValueSpec::Int(4),
        NodeStatus::Paused => ValueSpec::Int(5),
    }
}

// ===== Record models =====

/// A node error, in fixed field order.
pub open spec fn node_error_model(e: NodeError) -> ValueSpec {
    ValueSpec::Arr(
        seq![
            os_model(e.code),
            ValueSpec::Str(e.message@),
            os_model(e.stack),
            ov_model(e.details),
        ],
    )
}

/// A node log line, in fixed field order.
pub open spec fn log_entry_model(e: NodeLogEntry) -> ValueSpec {
    ValueSpec::Arr(
        seq![
            ValueSpec::Str(e.level@),
            ValueSpec::Str(e.message@),
            ValueSpec::Int(e.timestamp as int),
            ov_model(e.data),
        ],
    )
}

/// Node metadata, in fixed field order.
pub open spec fn metadata_model(m: NodeMetadata) -> ValueSpec {
    ValueSpec::Arr(
        seq![
            oi_model(m.tokens_used),
            os_model(m.model),
            oi_model(m.prompt_tokens),
            oi_model(m.completion_tokens),
            oi_model(m.http_status_code),
            os_model(m.http_url),
            os_model(m.http_method),
            os_model(m.condition_branch),
            oi_model(m.loop_iterations),
            oi_model(m.current_iteration),
            oi_model(m.retry_count),
        ],
    )
}

/// A list of log lines.
pub open spec fn logs_model(ls: Seq<NodeLogEntry>) -> Seq<ValueSpec>
    decreases ls.len(),
{
    if ls.len() == 0 {
        Seq::empty()
    } else {
        seq![log_entry_model(ls[0])] + logs_model(ls.subrange(1, ls.len() as int))
    }
}

/// One node's snapshot, in fixed field order.
pub open spec fn node_snapshot_model(n: NodeSnapshot) -> ValueSpec {
    ValueSpec::Arr(
        seq![
            ValueSpec::Str(n.node_id@),
            ValueSpec::Str(n.node_name@),
            ValueSpec::Str(n.node_type@),
            node_status_model(n.status),
            ValueSpec::Int(n.started_at as int),
            oi_model(n.completed_at),
            ValueSpec::Int(n.duration_ms as int),
            n.inputs.view_spec(),
            n.outputs.view_spec(),
            ov_model(n.resolved_config),
            match n.error {
                Some(e) => node_error_model(e),
                None => ValueSpec::Null,
            },
            match n.metadata {
                Some(m) => metadata_model(m),
                None => ValueSpec::Null,
            },
            match n.logs {
                Some(ls) => ValueSpec::Arr(logs_model(ls@)),
                None => ValueSpec::Null,
            },
            ob_model(n.is_breakpoint),
        ],
    )
}

/// A list of node snapshots.
pub open spec fn node_snapshots_model(ns: Seq<NodeSnapshot>) -> Seq<ValueSpec>
    decreases ns.len(),
{
    if ns.len() == 0 {
        Seq::empty()
    } else {
        seq![node_snapshot_model(ns[0])] + node_snapshots_model(ns.subrange(1, ns.len() as int))
    }
}

/// A list of ids.
pub open spec fn ids_model(ids: Seq<String>) -> Seq<ValueSpec> {
    Seq::new(ids.len(), |i: int| ValueSpec::Str(ids[i]@))
}

/// A run summary, in fixed field order.
pub open spec fn summary_model(s: ExecutionSummary) -> ValueSpec {
    ValueSpec::Arr(
        seq![
            ValueSpec::Int(s.total_nodes as int),
            ValueSpec::Int(s.completed_nodes as int),
            ValueSpec::Int(s.failed_nodes as int),
            ValueSpec::Int(s.skipped_nodes as int),
            oi_model(s.total_tokens_used),
        ],
    )
}

/// A snapshot error, in fixed field order.
pub open spec fn snap_error_model(e: SnapshotError) -> ValueSpec {
    ValueSpec::Arr(
        seq![
            os_model(e.code),
            ValueSpec::Str(e.message@),
            os_model(e.node_id),
            os_model(e.stack),
        ],
    )
}

/// Snapshot metadata, in fixed field order.
pub open spec fn snap_meta_model(m: SnapshotMetadata) -> ValueSpec {
    ValueSpec::Arr(
        seq![
            ValueSpec::Int(m.created_at as int),
            ValueSpec::Str(m.version@),
            ob_model(m.compressed),
            oi_model(m.original_size),
            oi_model(m.compressed_size),
            ValueSpec::Str(m.source@),
        ],
    )
}

/// The whole snapshot, in fixed field order. Two snapshots with the same
/// model agree on every field, up to the `Some(Null)` collapse of optional
/// value fields.
pub open spec fn snap_model(s: ExecutionSnapshot) -> ValueSpec {
    ValueSpec::Arr(
        seq![
            ValueSpec::Str(s.execution_id@),
            ValueSpec::Str(s.workflow_id@),
            os_model(s.workflow_name),
            oi_model(s.workflow_version),
            status_model(s.status),
            ValueSpec::Int(s.started_at as int),
            oi_model(s.completed_at),
            oi_model(s.duration_ms),
            ValueSpec::Arr(node_snapshots_model(s.node_snapshots@)),
            ValueSpec::Arr(ids_model(s.execution_order@)),
            os_model(s.current_node_id),
            s.inputs.view_spec(),
            s.outputs.view_spec(),
            s.variables.view_spec(),
            match s.error {
                Some(e) => snap_error_model(e),
                None => ValueSpec::Null,
            },
            summary_model(s.summary),
            snap_meta_model(s.metadata),
        ],
    )
}

// ===== Writers =====

/// An optional integer's value form.
fn oi_value(o: &Option<i64>) -> (v: Value)
    ensures
        v.view_spec() == oi_model(*o),
{
    match o {
        Some(x) => Value::Int(*x),
        None => Value::Null,
    }
}

/// An optional string's value form.
fn os_value(o: &Option<String>) -> (v: Value)
    ensures
        v.view_spec() == os_model(*o),
{
    match o {
        Some(s) => Value::Str(s.clone()),
        None => Value::Null,
    }
}

/// An optional flag's value form.
fn ob_value(o: &Option<bool>) -> (v: Value)
    ensures
        v.view_spec() == ob_model(*o),
{
    match o {
        Some(b) => Value::Bool(*b),
        None => Value::Null,
    }
}

/// An optional value's value form.
fn ov_value(o: &Option<Value>) -> (v: Value)
    ensures
        v.view_spec() == ov_model(*o),
{
    match o {
        Some(x) => x.deep_clone(),
        None => Value::Null,
    }
}

/// A run status code.
fn status_value(s: &ExecutionStatus) -> (v: Value)
    ensures
        v.view_spec() == status_model(*s),
{
    match s {
        ExecutionStatus::Pending => Value::Int(0),
        ExecutionStatus::Running => Value::Int(1),
        ExecutionStatus::Completed => Value::Int(2),
        ExecutionStatus::Failed => Value::Int(3),
        ExecutionStatus::Cancelled => Value::Int(4),
    }
}

/// A node status code.
fn node_status_value(s: &NodeStatus) -> (v: Value)
    ensures
        v.view_spec() == node_status_model(*s),
{
    match s {
        NodeStatus::Pending => Value::Int(0),
        NodeStatus::Running => Value::Int(1),
        NodeStatus::Completed => Value::Int(2),
        NodeStatus::Failed => Value::Int(3),
        NodeStatus::Skipped => Value::Int(4),
        NodeStatus::Paused => Value::Int(5),
    }
}

/// A node error's value form.
fn node_error_value(e: &NodeError) -> (v: Value)
    ensures
        v.view_spec() == node_error_model(*e),
{
    let mut items: Vec<Value> = Vec::new();
    items.push(os_value(&e.code));
    items.push(Value::Str(e.message.clone()));
    items.push(os_value(&e.stack));
    items.push(ov_value(&e.details));
    let ghost snap = items@;
    let v = Value::Arr(items);
    proof {
        lemma_arr_view(snap);
        assert(arr_view(snap) =~= seq![
            os_model(e.code),
            ValueSpec::Str(e.message@),
            os_model(e.stack),
            ov_model(e.details),
        ]);
    }
    v
}

/// A log line's value form.
fn log_entry_value(e: &NodeLogEntry) -> (v: Value)
    ensures
        v.view_spec() == log_entry_model(*e),
{
    let mut items: Vec<Value> = Vec::new();
    items.push(Value::Str(e.level.clone()));
    items.push(Value::Str(e.message.clone()));
    items.push(Value::Int(e.timestamp));
    items.push(ov_value(&e.data));
    let ghost snap = items@;
    let v = Value::Arr(items);
    proof {
        lemma_arr_view(snap);
        assert(arr_view(snap) =~= seq![
            ValueSpec::Str(e.level@),
            ValueSpec::Str(e.message@),
            ValueSpec::Int(e.timestamp as int),
            ov_model(e.data),
        ]);
    }
    v
}

/// Node metadata's value form.
fn metadata_value(m: &NodeMetadata) -> (v: Value)
    ensures
        v.view_spec() == metadata_model(*m),
{
    let mut items: Vec<Value> = Vec::new();
    items.push(oi_value(&m.tokens_used));
    items.push(os_value(&m.model));
    items.push(oi_value(&m.prompt_tokens));
    items.push(oi_value(&m.completion_tokens));
    items.push(oi_value(&m.http_status_code));
    items.push(os_value(&m.http_url));
    items.push(os_value(&m.http_method));
    items.push(os_value(&m.condition_branch));
    items.push(oi_value(&m.loop_iterations));
    items.push(oi_value(&m.current_iteration));
    items.push(oi_value(&m.retry_count));
    let ghost snap = items@;
    let v = Value::Arr(items);
    proof {
        lemma_arr_view(snap);
        assert(arr_view(snap) =~= seq![
            oi_model(m.tokens_used),
            os_model(m.model),
            oi_model(m.prompt_tokens),
            oi_model(m.completion_tokens),
            oi_model(m.http_status_code),
            os_model(m.http_url),
            os_model(m.http_method),
            os_model(m.condition_branch),
            oi_model(m.loop_iterations),
            oi_model(m.current_iteration),
            oi_model(m.retry_count),
        ]);
    }
    v
}

/// A log list's value form.
#[verifier::loop_isolation(false)]
fn logs_value(ls: &Vec<NodeLogEntry>) -> (v: Vec<Value>)
    ensures
        arr_view(v@) == logs_model(ls@),
{
    let n = ls.len();
    let mut out: Vec<Value> = Vec::new();
    let mut i: usize = 0;
    while i < n
        invariant
            i <= n,
            n == ls@.len(),
            out@.len() == i,
            forall|j: int|
                0 <= j < i ==> (#[trigger] out@[j]).view_spec() == log_entry_model(ls@[j]),
        decreases n - i,
    {
        out.push(log_entry_value(&ls[i]));
        i = i + 1;
    }
    proof {
        lemma_arr_view(out@);
        lemma_logs_model(ls@);
        assert(arr_view(out@) =~= logs_model(ls@));
    }
    out
}

/// `logs_model` is the pointwise model of the entries.
proof fn lemma_logs_model(ls: Seq<NodeLogEntry>)
    ensures
        logs_model(ls).len() == ls.len(),
        forall|j: int| 0 <= j < ls.len() ==> logs_model(ls)[j] == log_entry_model(#[trigger] ls[j]),
    decreases ls.len(),
{
    if ls.len() > 0 {
        let tail = ls.subrange(1, ls.len() as int);
        lemma_logs_model(tail);
        assert forall|j: int| 0 <= j < ls.len() implies logs_model(ls)[j] == log_entry_model(
            #[trigger] ls[j],
        ) by {
            if j > 0 {
                assert(tail[j - 1] == ls[j]);
                assert(logs_model(ls)[j] == logs_model(tail)[j - 1]);
            }
        }
    }
}

/// A node snapshot's value form.
fn node_snapshot_value(n: &NodeSnapshot) -> (v: Value)
    ensures
        v.view_spec() == node_snapshot_model(*n),
{
    let mut items: Vec<Value> = Vec::new();
    items.push(Value::Str(n.node_id.clone()));
    items.push(Value::Str(n.node_name.clone()));
    items.push(Value::Str(n.node_type.clone()));
    items.push(node_status_value(&n.status));
    items.push(Value::Int(n.started_at));
    items.push(oi_value(&n.completed_at));
    items.push(Value::Int(n.duration_ms));
    items.push(n.inputs.deep_clone());
    items.push(n.outputs.deep_clone());
    items.push(ov_value(&n.resolved_config));
    match &n.error {
        Some(e) => items.push(node_error_value(e)),
        None => items.push(Value::Null),
    }
    match &n.metadata {
        Some(m) => items.push(metadata_value(m)),
        None => items.push(Value::Null),
    }
    match &n.logs {
        Some(ls) => items.push(Value::Arr(logs_value(ls))),
        None => items.push(Value::Null),
    }
    items.push(ob_value(&n.is_breakpoint));
    let ghost snap = items@;
    let v = Value::Arr(items);
    proof {
        lemma_arr_view(snap);
        assert(arr_view(snap) =~= node_snapshot_model(*n)->Arr_0);
    }
    v
}

/// A node snapshot list's value form.
#[verifier::loop_isolation(false)]
fn node_snapshots_value(ns: &Vec<NodeSnapshot>) -> (v: Vec<Value>)
    ensures
        arr_view(v@) == node_snapshots_model(ns@),
{
    let n = ns.len();
    let mut out: Vec<Value> = Vec::new();
    let mut i: usize = 0;
    while i < n
        invariant
            i <= n,
            n == ns@.len(),
            out@.len() == i,
            forall|j: int|
                0 <= j < i ==> (#[trigger] out@[j]).view_spec() == node_snapshot_model(ns@[j]),
        decreases n - i,
    {
        out.push(node_snapshot_value(&ns[i]));
        i = i + 1;
    }
    proof {
        lemma_arr_view(out@);
        lemma_node_snapshots_model(ns@);
        assert(arr_view(out@) =~= node_snapshots_model(ns@));
    }
    out
}

/// `node_snapshots_model` is the pointwise model of the entries.
proof fn lemma_node_snapshots_model(ns: Seq<NodeSnapshot>)
    ensures
        node_snapshots_model(ns).len() == ns.len(),
        forall|j: int|
            0 <= j < ns.len() ==> node_snapshots_model(ns)[j] == node_snapshot_model(
                #[trigger] ns[j],
            ),
    decreases ns.len(),
{
    if ns.len() > 0 {
        let tail = ns.subrange(1, ns.len() as int);
        lemma_node_snapshots_model(tail);
        assert forall|j: int| 0 <= j < ns.len() implies node_snapshots_model(ns)[j]
            == node_snapshot_model(#[trigger] ns[j]) by {
            if j > 0 {
                assert(tail[j - 1] == ns[j]);
                assert(node_snapshots_model(ns)[j] == node_snapshots_model(tail)[j - 1]);
            }
        }
    }
}

/// An id list's value form.
#[verifier::loop_isolation(false)]
fn ids_value(ids: &Vec<String>) -> (v: Vec<Value>)
    ensures
        arr_view(v@) == ids_model(ids@),
{
    let n = ids.len();
    let mut out: Vec<Value> = Vec::new();
    let mut i: usize = 0;
    while i < n
        invariant
            i <= n,
            n == ids@.len(),
            out@.len() == i,
            forall|j: int|
                0 <= j < i ==> (#[trigger] out@[j]).view_spec() == ValueSpec::Str(ids@[j]@),
        decreases n - i,
    {
        out.push(Value::Str(ids[i].clone()));
        i = i + 1;
    }
    proof {
        lemma_arr_view(out@);
        assert(arr_view(out@) =~= ids_model(ids@));
    }
    out
}

/// A run summary's value form.
fn summary_value(s: &ExecutionSummary) -> (v: Value)
    ensures
        v.view_spec() == summary_model(*s),
{
    let mut items: Vec<Value> = Vec::new();
    items.push(Value::Int(s.total_nodes));
    items.push(Value::Int(s.completed_nodes));
    items.push(Value::Int(s.failed_nodes));
    items.push(Value::Int(s.skipped_nodes));
    items.push(oi_value(&s.total_tokens_used));
    let ghost snap = items@;
    let v = Value::Arr(items);
    proof {
        lemma_arr_view(snap);
        assert(arr_view(snap) =~= summary_model(*s)->Arr_0);
    }
    v
}

/// A snapshot error's value form.
fn snap_error_value(e: &SnapshotError) -> (v: Value)
    ensures
        v.view_spec() == snap_error_model(*e),
{
    let mut items: Vec<Value> = Vec::new();
    items.push(os_value(&e.code));
    items.push(Value::Str(e.message.clone()));
    items.push(os_value(&e.node_id));
    items.push(os_value(&e.stack));
    let ghost snap = items@;
    let v = Value::Arr(items);
    proof {
        lemma_arr_view(snap);
        assert(arr_view(snap) =~= snap_error_model(*e)->Arr_0);
    }
    v
}

/// Snapshot metadata's value form.
fn snap_meta_value(m: &SnapshotMetadata) -> (v: Value)
    ensures
        v.view_spec() == snap_meta_model(*m),
{
    let mut items: Vec<Value> = Vec::new();
    items.push(Value::Int(m.created_at));
    items.push(Value::Str(m.version.clone()));
    items.push(ob_value(&m.compressed));
    items.push(oi_value(&m.original_size));
    items.push(oi_value(&m.compressed_size));
    items.push(Value::Str(m.source.clone()));
    let ghost snap = items@;
    let v = Value::Arr(items);
    proof {
        lemma_arr_view(snap);
        assert(arr_view(snap) =~= snap_meta_model(*m)->Arr_0);
    }
    v
}

/// The whole snapshot's value form: the canonical shape that is serialized
/// and stored.
pub fn snapshot_to_value(s: &ExecutionSnapshot) -> (v: Value)
    ensures
        v.view_spec() == snap_model(*s),
{
    let mut items: Vec<Value> = Vec::new();
    items.push(Value::Str(s.execution_id.clone()));
    items.push(Value::Str(s.workflow_id.clone()));
    items.push(os_value(&s.workflow_name));
    items.push(oi_value(&s.workflow_version));
    items.push(status_value(&s.status));
    items.push(Value::Int(s.started_at));
    items.push(oi_value(&s.completed_at));
    items.push(oi_value(&s.duration_ms));
    items.push(Value::Arr(node_snapshots_value(&s.node_snapshots)));
    items.push(Value::Arr(ids_value(&s.execution_order)));
    items.push(os_value(&s.current_node_id));
    items.push(s.inputs.deep_clone());
    items.push(s.outputs.deep_clone());
    items.push(s.variables.deep_clone());
    match &s.error {
        Some(e) => items.push(snap_error_value(e)),
        None => items.push(Value::Null),
    }
    items.push(summary_value(&s.summary));
    items.push(snap_meta_value(&s.metadata));
    let ghost snap = items@;
    let v = Value::Arr(items);
    proof {
        lemma_arr_view(snap);
        assert(arr_view(snap) =~= snap_model(*s)->Arr_0);
    }
    v
}


// ===== Readers =====

/// Reads an optional integer field.
fn read_oi(v: &Value) -> (r: Option<Option<i64>>)
    ensures
        r matches Some(o) ==> oi_model(o) == v.view_spec(),
        r is Some <==> (v.view_spec() is Null || v.view_spec() is Int),
{
    match v {
        Value::Null => Some(None),
        Value::Int(x) => Some(Some(*x)),
        _ => None,
    }
}

/// Reads an optional string field.
fn read_os(v: &Value) -> (r: Option<Option<String>>)
    ensures
        r matches Some(o) ==> os_model(o) == v.view_spec(),
        r is Some <==> (v.view_spec() is Null || v.view_spec() is Str),
{
    match v {
        Value::Null => Some(None),
        Value::Str(x) => Some(Some(x.clone())),
        _ => None,
    }
}

/// Reads an optional flag field.
fn read_ob(v: &Value) -> (r: Option<Option<bool>>)
    ensures
        r matches Some(o) ==> ob_model(o) == v.view_spec(),
        r is Some <==> (v.view_spec() is Null || v.view_spec() is Bool),
{
    match v {
        Value::Null => Some(None),
        Value::Bool(b) => Some(Some(*b)),
        _ => None,
    }
}

/// Reads an optional value field; never fails.
fn read_ov(v: &Value) -> (r: Option<Value>)
    ensures
        ov_model(r) == v.view_spec(),
{
    match v {
        Value::Null => None,
        _ => Some(v.deep_clone()),
    }
}

/// Reads a required string field.
fn read_str(v: &Value) -> (r: Option<String>)
    ensures
        r matches Some(x) ==> ValueSpec::Str(x@) == v.view_spec(),
        r is Some <==> v.view_spec() is Str,
{
    match v {
        Value::Str(x) => Some(x.clone()),
        _ => None,
    }
}

/// Reads a required integer field.
fn read_i64(v: &Value) -> (r: Option<i64>)
    ensures
        r matches Some(x) ==> ValueSpec::Int(x as int) == v.view_spec(),
        r is Some <==> v.view_spec() is Int,
{
    match v {
        Value::Int(x) => Some(*x),
        _ => None,
    }
}

/// Reads a run status code.
fn read_status(v: &Value) -> (r: Option<ExecutionStatus>)
    ensures
        r matches Some(x) ==> status_model(x) == v.view_spec(),
        forall|s0: ExecutionStatus| v.view_spec() == status_model(s0) ==> r is Some,
{
    match v {
        Value::Int(0i64) => Some(ExecutionStatus::Pending),
        Value::Int(1i64) => Some(ExecutionStatus::Running),
        Value::Int(2i64) => Some(ExecutionStatus::Completed),
        Value::Int(3i64) => Some(ExecutionStatus::Failed),
        Value::Int(4i64) => Some(ExecutionStatus::Cancelled),
        _ => None,
    }
}

/// Reads a node status code.
fn read_node_status(v: &Value) -> (r: Option<NodeStatus>)
    ensures
        r matches Some(x) ==> node_status_model(x) == v.view_spec(),
        forall|s0: NodeStatus| v.view_spec() == node_status_model(s0) ==> r is Some,
{
    match v {
        Value::Int(0i64) => Some(NodeStatus::Pending),
        Value::Int(1i64) => Some(NodeStatus::Running),
        Value::Int(2i64) => Some(NodeStatus::Completed),
        Value::Int(3i64) => Some(NodeStatus::Failed),
        Value::Int(4i64) => Some(NodeStatus::Skipped),
        Value::Int(5i64) => Some(NodeStatus::Paused),
        _ => None,
    }
}

/// Reads a node error record.
fn read_node_error(v: &Value) -> (r: Option<NodeError>)
    ensures
        r matches Some(x) ==> node_error_model(x) == v.view_spec(),
        forall|e0: NodeError| v.view_spec() == node_error_model(e0) ==> r is Some,
{
    let items = match v {
        Value::Arr(items) => items,
        _ => {
            return None;
        },
    };
    proof {
        lemma_arr_view(items@);
    }
    if items.len() != 4 {
        return None;
    }
    let code = match read_os(&items[0]) {
        Some(x) => x,
        None => {
            return None;
        },
    };
    let message = match read_str(&items[1]) {
        Some(x) => x,
        None => {
            return None;
        },
    };
    let stack = match read_os(&items[2]) {
        Some(x) => x,
        None => {
            return None;
        },
    };
    let details = read_ov(&items[3]);
    let out = NodeError { code, message, stack, details };
    proof {
        assert(node_error_model(out)->Arr_0 =~= arr_view(items@));
    }
    Some(out)
}

/// Reads a log line record.
fn read_log_entry(v: &Value) -> (r: Option<NodeLogEntry>)
    ensures
        r matches Some(x) ==> log_entry_model(x) == v.view_spec(),
        forall|e0: NodeLogEntry| v.view_spec() == log_entry_model(e0) ==> r is Some,
{
    let items = match v {
        Value::Arr(items) => items,
        _ => {
            return None;
        },
    };
    proof {
        lemma_arr_view(items@);
    }
    if items.len() != 4 {
        return None;
    }
    let level = match read_str(&items[0]) {
        Some(x) => x,
        None => {
            return None;
        },
    };
    let message = match read_str(&items[1]) {
        Some(x) => x,
        None => {
            return None;
        },
    };
    let timestamp = match read_i64(&items[2]) {
        Some(x) => x,
        None => {
            return None;
        },
    };
    let data = read_ov(&items[3]);
    let out = NodeLogEntry { level, message, timestamp, data };
    proof {
        assert(log_entry_model(out)->Arr_0 =~= arr_view(items@));
    }
    Some(out)
}

/// Reads a node metadata record.
fn read_metadata(v: &Value) -> (r: Option<NodeMetadata>)
    ensures
        r matches Some(x) ==> metadata_model(x) == v.view_spec(),
        forall|m0: NodeMetadata| v.view_spec() == metadata_model(m0) ==> r is Some,
{
    let items = match v {
        Value::Arr(items) => items,
        _ => {
            return None;
        },
    };
    proof {
        lemma_arr_view(items@);
    }
    if items.len() != 11 {
        return None;
    }
    let tokens_used = match read_oi(&items[0]) {
        Some(x) => x,
        None => {
            return None;
        },
    };
    let model = match read_os(&items[1]) {
        Some(x) => x,
        None => {
            return None;
        },
    };
    let prompt_tokens = match read_oi(&items[2]) {
        Some(x) => x,
        None => {
            return None;
        },
    };
    let completion_tokens = match read_oi(&items[3]) {
        Some(x) => x,
        None => {
            return None;
        },
    };
    let http_status_code = match read_oi(&items[4]) {
        Some(x) => x,
        None => {
            return None;
        },
    };
    let http_url = match read_os(&items[5]) {
        Some(x) => x,
        None => {
            return None;
        },
    };
    let http_method = match read_os(&items[6]) {
        Some(x) => x,
        None => {
            return None;
        },
    };
    let condition_branch = match read_os(&items[7]) {
        Some(x) => x,
        None => {
            return None;
        },
    };
    let loop_iterations = match read_oi(&items[8]) {
        Some(x) => x,
        None => {
            return None;
        },
    };
    let current_iteration = match read_oi(&items[9]) {
        Some(x) => x,
        None => {
            return None;
        },
    };
    let retry_count = match read_oi(&items[10]) {
        Some(x) => x,
        None => {
            return None;
        },
    };
    let out = NodeMetadata {
        tokens_used,
        model,
        prompt_tokens,
        completion_tokens,
        http_status_code,
        http_url,
        http_method,
        condition_branch,
        loop_iterations,
        current_iteration,
        retry_count,
    };
    proof {
        assert(metadata_model(out)->Arr_0 =~= arr_view(items@));
    }
    Some(out)
}

/// Reads a list of log lines.
#[verifier::loop_isolation(false)]
fn read_logs(items: &Vec<Value>) -> (r: Option<Vec<NodeLogEntry>>)
    ensures
        r matches Some(ls) ==> logs_model(ls@) == arr_view(items@),
        forall|ls0: Seq<NodeLogEntry>| arr_view(items@) == logs_model(ls0) ==> r is Some,
{
    proof {
        lemma_arr_view(items@);
    }
    let n = items.len();
    let mut out: Vec<NodeLogEntry> = Vec::new();
    let mut i: usize = 0;
    while i < n
        invariant
            i <= n,
            n == items@.len(),
            out@.len() == i,
            forall|j: int|
                0 <= j < i ==> log_entry_model(#[trigger] out@[j]) == items@[j].view_spec(),
        decreases n - i,
    {
        match read_log_entry(&items[i]) {
            Some(e) => {
                out.push(e);
            },
            None => {
                proof {
                    assert forall|ls0: Seq<NodeLogEntry>|
                        arr_view(items@) == logs_model(ls0) implies false by {
                        lemma_logs_model(ls0);
                        assert(items@[i as int].view_spec() == log_entry_model(ls0[i as int]));
                    }
                }
                return None;
            },
        }
        i = i + 1;
    }
    proof {
        lemma_logs_model(out@);
        assert forall|j: int| 0 <= j < out@.len() implies logs_model(out@)[j] == arr_view(
            items@,
        )[j] by {
            assert(logs_model(out@)[j] == log_entry_model(out@[j]));
            assert(arr_view(items@)[j] == items@[j].view_spec());
        }
        assert(logs_model(out@) =~= arr_view(items@));
    }
    Some(out)
}

/// Reads one node's snapshot record.
#[verifier::rlimit(100)]
fn read_node_snapshot(v: &Value) -> (r: Option<NodeSnapshot>)
    ensures
        r matches Some(x) ==> node_snapshot_model(x) == v.view_spec(),
        forall|n0: NodeSnapshot| v.view_spec() == node_snapshot_model(n0) ==> r is Some,
{
    let items = match v {
        Value::Arr(items) => items,
        _ => {
            return None;
        },
    };
    proof {
        lemma_arr_view(items@);
    }
    if items.len() != 14 {
        return None;
    }
    let node_id = match read_str(&items[0]) {
        Some(x) => x,
        None => {
            return None;
        },
    };
    let node_name = match read_str(&items[1]) {
        Some(x) => x,
        None => {
            return None;
        },
    };
    let node_type = match read_str(&items[2]) {
        Some(x) => x,
        None => {
            return None;
        },
    };
    let status = match read_node_status(&items[3]) {
        Some(x) => x,
        None => {
            proof {
                assert forall|n0: NodeSnapshot|
                    v.view_spec() == node_snapshot_model(n0) implies false by {
                    assert(items@[3].view_spec() == node_status_model(n0.status));
                }
            }
            return None;
        },
    };
    let started_at = match read_i64(&items[4]) {
        Some(x) => x,
        None => {
            return None;
        },
    };
    let completed_at = match read_oi(&items[5]) {
        Some(x) => x,
        None => {
            return None;
        },
    };
    let duration_ms = match read_i64(&items[6]) {
        Some(x) => x,
        None => {
            return None;
        },
    };
    let inputs = items[7].deep_clone();
    let outputs = items[8].deep_clone();
    let resolved_config = read_ov(&items[9]);
    let error = match &items[10] {
        Value::Null => None,
        other => match read_node_error(other) {
            Some(e) => Some(e),
            None => {
                proof {
                    assert forall|n0: NodeSnapshot|
                        v.view_spec() == node_snapshot_model(n0) implies false by {
                        if n0.error is Some {
                            assert(items@[10].view_spec() == node_error_model(n0.error->0));
                        } else {
                            assert(items@[10].view_spec() == ValueSpec::Null);
                        }
                    }
                }
                return None;
            },
        },
    };
    let metadata = match &items[11] {
        Value::Null => None,
        other => match read_metadata(other) {
            Some(m) => Some(m),
            None => {
                proof {
                    assert forall|n0: NodeSnapshot|
                        v.view_spec() == node_snapshot_model(n0) implies false by {
                        if n0.metadata is Some {
                            assert(items@[11].view_spec() == metadata_model(n0.metadata->0));
                        } else {
                            assert(items@[11].view_spec() == ValueSpec::Null);
                        }
                    }
                }
                return None;
            },
        },
    };
    let logs = match &items[12] {
        Value::Null => None,
        Value::Arr(ls) => match read_logs(ls) {
            Some(l) => Some(l),
            None => {
                proof {
                    assert forall|n0: NodeSnapshot|
                        v.view_spec() == node_snapshot_model(n0) implies false by {
                        if n0.logs is Some {
                            assert(items@[12].view_spec() == ValueSpec::Arr(
                                logs_model(n0.logs->0@),
                            ));
                        } else {
                            assert(items@[12].view_spec() == ValueSpec::Null);
                        }
                    }
                }
                return None;
            },
        },
        _ => {
            proof {
                assert forall|n0: NodeSnapshot|
                    v.view_spec() == node_snapshot_model(n0) implies false by {
                    if n0.logs is Some {
                        assert(items@[12].view_spec() == ValueSpec::Arr(logs_model(n0.logs->0@)));
                    } else {
                        assert(items@[12].view_spec() == ValueSpec::Null);
                    }
                }
            }
            return None;
        },
    };
    let is_breakpoint = match read_ob(&items[13]) {
        Some(x) => x,
        None => {
            return None;
        },
    };
    let out = NodeSnapshot {
        node_id,
        node_name,
        node_type,
        status,
        started_at,
        completed_at,
        duration_ms,
        inputs,
        outputs,
        resolved_config,
        error,
        metadata,
        logs,
        is_breakpoint,
    };
    proof {
        assert(node_snapshot_model(out)->Arr_0 =~= arr_view(items@));
    }
    Some(out)
}

/// Reads a list of node snapshots.
#[verifier::loop_isolation(false)]
fn read_node_snapshots(items: &Vec<Value>) -> (r: Option<Vec<NodeSnapshot>>)
    ensures
        r matches Some(ns) ==> node_snapshots_model(ns@) == arr_view(items@),
        forall|ns0: Seq<NodeSnapshot>| arr_view(items@) == node_snapshots_model(ns0) ==> r is Some,
{
    proof {
        lemma_arr_view(items@);
    }
    let n = items.len();
    let mut out: Vec<NodeSnapshot> = Vec::new();
    let mut i: usize = 0;
    while i < n
        invariant
            i <= n,
            n == items@.len(),
            out@.len() == i,
            forall|j: int|
                0 <= j < i ==> node_snapshot_model(#[trigger] out@[j]) == items@[j].view_spec(),
        decreases n - i,
    {
        match read_node_snapshot(&items[i]) {
            Some(e) => {
                out.push(e);
            },
            None => {
                proof {
                    assert forall|ns0: Seq<NodeSnapshot>|
                        arr_view(items@) == node_snapshots_model(ns0) implies false by {
                        lemma_node_snapshots_model(ns0);
                        assert(items@[i as int].view_spec() == node_snapshot_model(ns0[i as int]));
                    }
                }
                return None;
            },
        }
        i = i + 1;
    }
    proof {
        lemma_node_snapshots_model(out@);
        assert forall|j: int| 0 <= j < out@.len() implies node_snapshots_model(out@)[j]
            == arr_view(items@)[j] by {
            assert(node_snapshots_model(out@)[j] == node_snapshot_model(out@[j]));
            assert(arr_view(items@)[j] == items@[j].view_spec());
        }
        assert(node_snapshots_model(out@) =~= arr_view(items@));
    }
    Some(out)
}

/// Reads a list of ids.
#[verifier::loop_isolation(false)]
fn read_ids(items: &Vec<Value>) -> (r: Option<Vec<String>>)
    ensures
        r matches Some(ids) ==> ids_model(ids@) == arr_view(items@),
        forall|ids0: Seq<String>| arr_view(items@) == ids_model(ids0) ==> r is Some,
{
    proof {
        lemma_arr_view(items@);
    }
    let n = items.len();
    let mut out: Vec<String> = Vec::new();
    let mut i: usize = 0;
    while i < n
        invariant
            i <= n,
            n == items@.len(),
            out@.len() == i,
            forall|j: int|
                0 <= j < i ==> ValueSpec::Str((#[trigger] out@[j])@) == items@[j].view_spec(),
        decreases n - i,
    {
        match read_str(&items[i]) {
            Some(id) => {
                out.push(id);
            },
            None => {
                proof {
                    assert forall|ids0: Seq<String>|
                        arr_view(items@) == ids_model(ids0) implies false by {
                        assert(items@[i as int].view_spec() == ids_model(ids0)[i as int]);
                    }
                }
                return None;
            },
        }
        i = i + 1;
    }
    proof {
        assert(ids_model(out@) =~= arr_view(items@));
    }
    Some(out)
}

/// Reads a run summary record.
fn read_summary(v: &Value) -> (r: Option<ExecutionSummary>)
    ensures
        r matches Some(x) ==> summary_model(x) == v.view_spec(),
        forall|s0: ExecutionSummary| v.view_spec() == summary_model(s0) ==> r is Some,
{
    let items = match v {
        Value::Arr(items) => items,
        _ => {
            return None;
        },
    };
    proof {
        lemma_arr_view(items@);
    }
    if items.len() != 5 {
        return None;
    }
    let total_nodes = match read_i64(&items[0]) {
        Some(x) => x,
        None => {
            return None;
        },
    };
    let completed_nodes = match read_i64(&items[1]) {
        Some(x) => x,
        None => {
            return None;
        },
    };
    let failed_nodes = match read_i64(&items[2]) {
        Some(x) => x,
        None => {
            return None;
        },
    };
    let skipped_nodes = match read_i64(&items[3]) {
        Some(x) => x,
        None => {
            return None;
        },
    };
    let total_tokens_used = match read_oi(&items[4]) {
        Some(x) => x,
        None => {
            return None;
        },
    };
    let out = ExecutionSummary {
        total_nodes,
        completed_nodes,
        failed_nodes,
        skipped_nodes,
        total_tokens_used,
    };
    proof {
        assert(summary_model(out)->Arr_0 =~= arr_view(items@));
    }
    Some(out)
}

/// Reads a snapshot error record.
fn read_snap_error(v: &Value) -> (r: Option<SnapshotError>)
    ensures
        r matches Some(x) ==> snap_error_model(x) == v.view_spec(),
        forall|e0: SnapshotError| v.view_spec() == snap_error_model(e0) ==> r is Some,
{
    let items = match v {
        Value::Arr(items) => items,
        _ => {
            return None;
        },
    };
    proof {
        lemma_arr_view(items@);
    }
    if items.len() != 4 {
        return None;
    }
    let code = match read_os(&items[0]) {
        Some(x) => x,
        None => {
            return None;
        },
    };
    let message = match read_str(&items[1]) {
        Some(x) => x,
        None => {
            return None;
        },
    };
    let node_id = match read_os(&items[2]) {
        Some(x) => x,
        None => {
            return None;
        },
    };
    let stack = match read_os(&items[3]) {
        Some(x) => x,
        None => {
            return None;
        },
    };
    let out = SnapshotError { code, message, node_id, stack };
    proof {
        assert(snap_error_model(out)->Arr_0 =~= arr_view(items@));
    }
    Some(out)
}

/// Reads a snapshot metadata record.
fn read_snap_meta(v: &Value) -> (r: Option<SnapshotMetadata>)
    ensures
        r matches Some(x) ==> snap_meta_model(x) == v.view_spec(),
        forall|m0: SnapshotMetadata| v.view_spec() == snap_meta_model(m0) ==> r is Some,
{
    let items = match v {
        Value::Arr(items) => items,
        _ => {
            return None;
        },
    };
    proof {
        lemma_arr_view(items@);
    }
    if items.len() != 6 {
        return None;
    }
    let created_at = match read_i64(&items[0]) {
        Some(x) => x,
        None => {
            return None;
        },
    };
    let version = match read_str(&items[1]) {
        Some(x) => x,
        None => {
            return None;
        },
    };
    let compressed = match read_ob(&items[2]) {
        Some(x) => x,
        None => {
            return None;
        },
    };
    let original_size = match read_oi(&items[3]) {
        Some(x) => x,
        None => {
            return None;
        },
    };
    let compressed_size = match read_oi(&items[4]) {
        Some(x) => x,
        None => {
            return None;
        },
    };
    let source = match read_str(&items[5]) {
        Some(x) => x,
        None => {
            return None;
        },
    };
    let out = SnapshotMetadata {
        created_at,
        version,
        compressed,
        original_size,
        compressed_size,
        source,
    };
    proof {
        assert(snap_meta_model(out)->Arr_0 =~= arr_view(items@));
    }
    Some(out)
}

/// Restores a snapshot from its canonical value form: the inverse of
/// [`snapshot_to_value`] up to the `Some(Null)` collapse.
#[verifier::rlimit(100)]
#[verifier::spinoff_prover]
pub fn value_to_snapshot(v: &Value) -> (r: Option<ExecutionSnapshot>)
    ensures
        r matches Some(x) ==> snap_model(x) == v.view_spec(),
        forall|s0: ExecutionSnapshot| v.view_spec() == snap_model(s0) ==> r is Some,
{
    let items = match v {
        Value::Arr(items) => items,
        _ => {
            return None;
        },
    };
    proof {
        lemma_arr_view(items@);
    }
    if items.len() != 17 {
        return None;
    }
    let execution_id = match read_str(&items[0]) {
        Some(x) => x,
        None => {
            return None;
        },
    };
    let workflow_id = match read_str(&items[1]) {
        Some(x) => x,
        None => {
            return None;
        },
    };
    let workflow_name = match read_os(&items[2]) {
        Some(x) => x,
        None => {
            return None;
        },
    };
    let workflow_version = match read_oi(&items[3]) {
        Some(x) => x,
        None => {
            return None;
        },
    };
    let status = match read_status(&items[4]) {
        Some(x) => x,
        None => {
            proof {
                assert forall|s0: ExecutionSnapshot|
                    v.view_spec() == snap_model(s0) implies false by {
                    assert(items@[4].view_spec() == status_model(s0.status));
                }
            }
            return None;
        },
    };
    let started_at = match read_i64(&items[5]) {
        Some(x) => x,
        None => {
            return None;
        },
    };
    let completed_at = match read_oi(&items[6]) {
        Some(x) => x,
        None => {
            return None;
        },
    };
    let duration_ms = match read_oi(&items[7]) {
        Some(x) => x,
        None => {
            return None;
        },
    };
    let node_snapshots = match &items[8] {
        Value::Arr(ns) => match read_node_snapshots(ns) {
            Some(x) => x,
            None => {
                proof {
                    assert forall|s0: ExecutionSnapshot|
                        v.view_spec() == snap_model(s0) implies false by {
                        assert(items@[8].view_spec() == ValueSpec::Arr(
                            node_snapshots_model(s0.node_snapshots@),
                        ));
                    }
                }
                return None;
            },
        },
        _ => {
            proof {
                assert forall|s0: ExecutionSnapshot|
                    v.view_spec() == snap_model(s0) implies false by {
                    assert(items@[8].view_spec() == ValueSpec::Arr(
                        node_snapshots_model(s0.node_snapshots@),
                    ));
                }
            }
            return None;
        },
    };
    let execution_order = match &items[9] {
        Value::Arr(ids) => match read_ids(ids) {
            Some(x) => x,
            None => {
                proof {
                    assert forall|s0: ExecutionSnapshot|
                        v.view_spec() == snap_model(s0) implies false by {
                        assert(items@[9].view_spec() == ValueSpec::Arr(
                            ids_model(s0.execution_order@),
                        ));
                    }
                }
                return None;
            },
        },
        _ => {
            proof {
                assert forall|s0: ExecutionSnapshot|
                    v.view_spec() == snap_model(s0) implies false by {
                    assert(items@[9].view_spec() == ValueSpec::Arr(ids_model(s0.execution_order@)));
                }
            }
            return None;
        },
    };
    let current_node_id = match read_os(&items[10]) {
        Some(x) => x,
        None => {
            return None;
        },
    };
    let inputs = items[11].deep_clone();
    let outputs = items[12].deep_clone();
    let variables = items[13].deep_clone();
    let error = match &items[14] {
        Value::Null => None,
        other => match read_snap_error(other) {
            Some(e) => Some(e),
            None => {
                proof {
                    assert forall|s0: ExecutionSnapshot|
                        v.view_spec() == snap_model(s0) implies false by {
                        if s0.error is Some {
                            assert(items@[14].view_spec() == snap_error_model(s0.error->0));
                        } else {
                            assert(items@[14].view_spec() == ValueSpec::Null);
                        }
                    }
                }
                return None;
            },
        },
    };
    let summary = match read_summary(&items[15]) {
        Some(x) => x,
        None => {
            proof {
                assert forall|s0: ExecutionSnapshot|
                    v.view_spec() == snap_model(s0) implies false by {
                    assert(items@[15].view_spec() == summary_model(s0.summary));
                }
            }
            return None;
        },
    };
    let metadata = match read_snap_meta(&items[16]) {
        Some(x) => x,
        None => {
            proof {
                assert forall|s0: ExecutionSnapshot|
                    v.view_spec() == snap_model(s0) implies false by {
                    assert(items@[16].view_spec() == snap_meta_model(s0.metadata));
                }
            }
            return None;
        },
    };
    let out = ExecutionSnapshot {
        execution_id,
        workflow_id,
        workflow_name,
        workflow_version,
        status,
        started_at,
        completed_at,
        duration_ms,
        node_snapshots,
        execution_order,
        current_node_id,
        inputs,
        outputs,
        variables,
        error,
        summary,
        metadata,
    };
    proof {
        assert(snap_model(out)->Arr_0 =~= arr_view(items@));
    }
    Some(out)
}

} // verus!
