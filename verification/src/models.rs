//! Plain data types: run records, snapshots, timelines, statistics, and the
//! small records the surrounding application exchanges with the library.
//! Timestamps are milliseconds since the Unix epoch.

use vstd::prelude::*;

use crate::value::Value;

verus! {

/// The lifecycle state of one run.
#[derive(Debug, Clone, Copy, PartialEq, Eq, Structural)]
pub enum ExecutionStatus {
    Pending,
    Running,
    Completed,
    Failed,
    Cancelled,
}

/// The lifecycle state of one node within a run.
#[derive(Debug, Clone, Copy, PartialEq, Eq, Structural)]
pub enum NodeStatus {
    Pending,
    Running,
    Completed,
    Failed,
    Skipped,
    Paused,
}

/// One run of a workflow, from inputs to a terminal outcome.
#[derive(Debug)]
pub struct Execution {
    pub id: String,
    pub workflow_id: String,
    pub status: ExecutionStatus,
    pub inputs: Value,
    pub outputs: Option<Value>,
    pub error: Option<String>,
    pub started_at: i64,
    pub completed_at: Option<i64>,
    pub duration_ms: Option<i64>,
    pub node_results: Vec<NodeResult>,
}

/// One node's outcome within a run.
#[derive(Debug)]
pub struct NodeResult {
    pub node_id: String,
    pub status: ExecutionStatus,
    pub inputs: Value,
    pub outputs: Option<Value>,
    pub error: Option<String>,
    pub started_at: i64,
    pub completed_at: Option<i64>,
    pub duration_ms: Option<i64>,
}

/// A run together with whether it is still in flight.
#[derive(Debug)]
pub struct ExecutionInfo {
    pub execution: Execution,
    pub is_running: bool,
}

/// Aggregate counts over the run history.
#[derive(Debug, Clone, Copy, PartialEq, Eq, Structural)]
pub struct ExecutionStats {
    pub total: i64,
    pub completed: i64,
    pub failed: i64,
    pub running: i64,
}

/// An error recorded for one node.
#[derive(Debug)]
pub struct NodeError {
    pub code: Option<String>,
    pub message: String,
    pub stack: Option<String>,
    pub details: Option<Value>,
}

/// One log line recorded for a node.
#[derive(Debug)]
pub struct NodeLogEntry {
    pub level: String,
    pub message: String,
    pub timestamp: i64,
    pub data: Option<Value>,
}

/// Extra information recorded about one node's execution.
#[derive(Debug)]
pub struct NodeMetadata {
    pub tokens_used: Option<i64>,
    pub model: Option<String>,
    pub prompt_tokens: Option<i64>,
    pub completion_tokens: Option<i64>,
    pub http_status_code: Option<i64>,
    pub http_url: Option<String>,
    pub http_method: Option<String>,
    pub condition_branch: Option<String>,
    pub loop_iterations: Option<i64>,
    pub current_iteration: Option<i64>,
    pub retry_count: Option<i64>,
}

/// The captured state of one node in one run.
#[derive(Debug)]
pub struct NodeSnapshot {
    pub node_id: String,
    pub node_name: String,
    pub node_type: String,
    pub status: NodeStatus,
    pub started_at: i64,
    pub completed_at: Option<i64>,
    pub duration_ms: i64,
    pub inputs: Value,
    pub outputs: Value,
    pub resolved_config: Option<Value>,
    pub error: Option<NodeError>,
    pub metadata: Option<NodeMetadata>,
    pub logs: Option<Vec<NodeLogEntry>>,
    pub is_breakpoint: Option<bool>,
}

/// How a snapshot was stored.
#[derive(Debug)]
pub struct SnapshotMetadata {
    pub created_at: i64,
    pub version: String,
    pub compressed: Option<bool>,
    pub original_size: Option<i64>,
    pub compressed_size: Option<i64>,
    pub source: String,
}

/// Counts summarizing one run.
#[derive(Debug, Clone, Copy, PartialEq, Eq, Structural)]
pub struct ExecutionSummary {
    pub total_nodes: i64,
    pub completed_nodes: i64,
    pub failed_nodes: i64,
    pub skipped_nodes: i64,
    pub total_tokens_used: Option<i64>,
}

/// The error that ended a run, as recorded in its snapshot.
#[derive(Debug)]
pub struct SnapshotError {
    pub code: Option<String>,
    pub message: String,
    pub node_id: Option<String>,
    pub stack: Option<String>,
}

/// The complete captured state of one run.
#[derive(Debug)]
pub struct ExecutionSnapshot {
    pub execution_id: String,
    pub workflow_id: String,
    pub workflow_name: Option<String>,
    pub workflow_version: Option<i64>,
    pub status: ExecutionStatus,
    pub started_at: i64,
    pub completed_at: Option<i64>,
    pub duration_ms: Option<i64>,
    pub node_snapshots: Vec<NodeSnapshot>,
    pub execution_order: Vec<String>,
    pub current_node_id: Option<String>,
    pub inputs: Value,
    pub outputs: Value,
    pub variables: Value,
    pub error: Option<SnapshotError>,
    pub summary: ExecutionSummary,
    pub metadata: SnapshotMetadata,
}

/// One step of a timeline view.
#[derive(Debug)]
pub struct TimelineStep {
    pub index: i64,
    pub node_id: String,
    pub node_name: String,
    pub node_type: String,
    pub node_icon: Option<String>,
    pub status: NodeStatus,
    pub started_at: i64,
    pub completed_at: Option<i64>,
    pub duration_ms: i64,
    pub description: Option<String>,
    pub is_selected: Option<bool>,
    pub has_error: Option<bool>,
}

/// The ordered view of one run's steps.
#[derive(Debug)]
pub struct TimelineView {
    pub execution_id: String,
    pub status: ExecutionStatus,
    pub started_at: i64,
    pub completed_at: Option<i64>,
    pub duration_ms: Option<i64>,
    pub steps: Vec<TimelineStep>,
    pub selected_step_index: Option<i64>,
}

/// How a snapshot should be stored.
#[derive(Debug)]
pub struct SnapshotStorageOptions {
    pub compress: Option<bool>,
    pub compression_level: Option<i64>,
    pub max_snapshots: Option<i64>,
    pub max_age_days: Option<i64>,
    pub exclude_sensitive_data: Option<bool>,
    pub sensitive_fields: Option<Vec<String>>,
}

impl Default for SnapshotStorageOptions {
    /// Compression on, at the balanced level.
    fn default() -> (d: Self)
        ensures
            d.compress == Some(true),
            d.compression_level == Some(6i64),
            d.max_snapshots is None,
            d.max_age_days is None,
            d.exclude_sensitive_data == Some(false),
            d.sensitive_fields is None,
    {
        SnapshotStorageOptions {
            compress: Some(true),
            compression_level: Some(6),
            max_snapshots: None,
            max_age_days: None,
            exclude_sensitive_data: Some(false),
            sensitive_fields: None,
        }
    }
}

/// A catalogue row: one snapshot without its node data.
#[derive(Debug)]
pub struct SnapshotListItem {
    pub execution_id: String,
    pub workflow_id: String,
    pub workflow_name: Option<String>,
    pub status: ExecutionStatus,
    pub started_at: i64,
    pub completed_at: Option<i64>,
    pub duration_ms: Option<i64>,
    pub summary: ExecutionSummary,
}

/// The four retention criteria and how to apply them.
#[derive(Debug, Default)]
pub struct CleanupOptions {
    pub max_count: Option<i64>,
    pub max_age_days: Option<i64>,
    pub max_total_size_mb: Option<i64>,
    pub failed_only: Option<bool>,
    pub exclude_favorites: Option<bool>,
    pub dry_run: Option<bool>,
}

/// What a cleanup pass deleted, or would delete.
#[derive(Debug)]
pub struct CleanupResult {
    pub deleted_count: i64,
    pub freed_bytes: i64,
    pub deleted_ids: Vec<String>,
}

/// The sizes after recompressing one snapshot.
#[derive(Debug)]
pub struct CompressionResult {
    pub execution_id: String,
    pub original_size: i64,
    pub compressed_size: i64,
}

/// Aggregate sizes of the snapshot store.
#[derive(Debug)]
pub struct StorageStats {
    pub total_count: i64,
    pub total_original_size: i64,
    pub total_compressed_size: i64,
    pub oldest_snapshot: Option<i64>,
    pub newest_snapshot: Option<i64>,
}

/// Application settings.
#[derive(Debug)]
pub struct Settings {
    pub theme: String,
    pub language: String,
    pub ollama_url: String,
    pub auto_save: bool,
    pub auto_save_interval: i64,
    pub offline_mode: bool,
    pub default_model: Option<String>,
    pub api_keys: Value,
}

/// A model known to the local model runner.
#[derive(Debug)]
pub struct OllamaModel {
    pub name: String,
    pub model: String,
    pub size: i64,
    pub digest: String,
    pub modified_at: String,
}

/// One message of a model exchange.
#[derive(Debug)]
pub struct ChatMessage {
    pub role: String,
    pub content: String,
}

/// A model's reply.
#[derive(Debug)]
pub struct ChatResponse {
    pub model: String,
    pub message: ChatMessage,
    pub done: bool,
    pub total_duration: Option<i64>,
    pub eval_count: Option<i64>,
}

/// Whether the local model runner answers, and with which models.
#[derive(Debug)]
pub struct OllamaStatus {
    pub available: bool,
    pub version: Option<String>,
    pub models: Vec<String>,
}

/// Progress of one model download.
#[derive(Debug)]
pub struct PullProgress {
    pub status: String,
    pub digest: Option<String>,
    pub total: Option<i64>,
    pub completed: Option<i64>,
}

/// Summary data of one installed model.
#[derive(Debug)]
pub struct ModelInfo {
    pub name: String,
    pub size: i64,
    pub digest: String,
    pub modified_at: String,
    pub details: Option<ModelDetails>,
}

/// Details of one installed model.
#[derive(Debug)]
pub struct ModelDetails {
    pub format: String,
    pub family: String,
    pub parameter_size: String,
    pub quantization_level: String,
}

/// A named credential provider.
#[derive(Debug, Clone, Copy, PartialEq, Eq, Structural)]
pub enum ApiKeyProvider {
    OpenAI,
    Anthropic,
    Google,
    Azure,
    Ollama,
    Custom,
}

/// A request to store one credential.
#[derive(Debug)]
pub struct CreateApiKeyRequest {
    pub name: String,
    pub provider: String,
    pub api_key: String,
    pub base_url: Option<String>,
    pub is_default: Option<bool>,
}

/// One stored credential, without its secret.
#[derive(Debug)]
pub struct ApiKeyInfo {
    pub id: String,
    pub name: String,
    pub provider: String,
    pub key_hint: Option<String>,
    pub base_url: Option<String>,
    pub is_default: bool,
    pub is_enabled: bool,
    pub last_used_at: Option<i64>,
    pub usage_count: i64,
    pub created_at: i64,
    pub updated_at: i64,
}

/// What an update check found.
#[derive(Debug)]
pub struct UpdateInfo {
    pub available: bool,
    pub current_version: String,
    pub latest_version: Option<String>,
    pub release_notes: Option<String>,
    pub release_date: Option<String>,
}

/// Where an update stands.
#[derive(Debug, Clone, Copy, PartialEq, Eq, Structural)]
pub enum UpdateStatus {
    Checking,
    Available,
    UpToDate,
    Downloading,
    Installing,
    Done,
    Error,
}

/// The application's own name and version.
#[derive(Debug)]
pub struct AppInfo {
    pub name: String,
    pub version: String,
    pub tauri_version: String,
}

/// Whether the window sits in the tray.
#[derive(Debug)]
pub struct TrayStatus {
    pub minimized: bool,
}

/// Whether the application starts with the system.
#[derive(Debug)]
pub struct AutoStartStatus {
    pub enabled: bool,
}

/// One log file on disk.
#[derive(Debug)]
pub struct LogFileInfo {
    pub name: String,
    pub size: i64,
    pub modified_at: Option<i64>,
}

/// Aggregate sizes of the log directory.
#[derive(Debug)]
pub struct LogStats {
    pub total_size: i64,
    pub file_count: i64,
    pub files: Vec<LogFileInfo>,
}

/// Sizes of the application's storage areas.
#[derive(Debug)]
pub struct StorageDetails {
    pub database_size: i64,
    pub cache_size: i64,
    pub logs_size: i64,
    pub total_size: i64,
}

/// The host system, as reported to the user.
#[derive(Debug)]
pub struct SystemInfo {
    pub os: String,
    pub arch: String,
    pub version: String,
    pub hostname: String,
}

} // verus!
