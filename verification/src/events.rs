//! What the engine reports while it works.

use crate::model::TargetId;
use vstd::prelude::*;

verus! {

/// One event of the engine's stream.
#[allow(inconsistent_fields)]
#[derive(Debug, PartialEq, Eq)]
pub enum Event {
    EngineHello { version: String, protocol: u32, workspace: String, capabilities: Vec<String> },
    EngineShutdown { reason: ShutdownReason, error: Option<String> },
    ConfigLoaded { workspace_name: String, target_count: usize },
    ConfigError { file: String, line: Option<u32>, column: Option<u32>, message: String },
    BuildStarted { id: String, selection: Vec<String>, target_ids: Vec<TargetId>, parallelism: usize },
    BuildFinished { id: String, ok: bool, duration_ms: u64, counts: TargetCounts },
    TargetQueued { build: String, id: TargetId, deps: Vec<TargetId> },
    TargetStarted { build: String, id: TargetId, cache_key: String, command: String },
    TargetLog { build: String, id: TargetId, stream: LogStream, line: String, truncated: bool },
    TargetFinished {
        build: String,
        id: TargetId,
        result: TargetResultKind,
        duration_ms: u64,
        exit_code: Option<i32>,
        outputs: Vec<String>,
        error: Option<String>,
    },
    WatchStarted { filter: Option<String> },
    WatchBatch { paths: Vec<String>, more: usize, config_changed: bool },
    WatchAffected { target_ids: Vec<TargetId> },
    WatchState { state: WatchStateKind },
    WatchStopped,
    /// A change touched what a subscription watches. No build runs.
    WatchChanged { paths: Vec<String> },
    /// One target of the merged graph.
    TargetDescribed {
        id: TargetId,
        tags: Vec<String>,
        test: bool,
        command: String,
        inputs: Vec<String>,
        outputs: Vec<String>,
        deps: Vec<TargetId>,
    },
    ProtocolDropped { count: u64, build: Option<String>, target: Option<TargetId> },
    /// The session takes commands from here on.
    EngineReady,
    /// A command was taken; `build` is the build it started, if any.
    CommandAccepted { command_id: String, build: Option<String> },
    /// A command was refused.
    CommandRejected { command_id: String, reason: String },
    /// A command was taken and failed.
    CommandError { command_id: String, message: String },
    CatalogInvalidating,
    CatalogReady,
    AffectedChanged { base: String, target_ids: Vec<TargetId> },
    AffectedError { base: String, message: String },
    /// The cache state of targets.
    QueryStatus { command_id: Option<String>, targets: Vec<TargetStatus> },
    /// What feeds a target's key, and whether it is cached.
    QueryExplained {
        command_id: Option<String>,
        target: TargetId,
        key: String,
        cached: bool,
        command: String,
        cwd: String,
        file_inputs: Vec<ExplainInput>,
        deps: Vec<ExplainDep>,
        env: Vec<ExplainEnv>,
        cache_hit: Option<ExplainCacheHit>,
    },
    /// One line of a kept log.
    LogsLine { command_id: Option<String>, target: TargetId, stream: LogStream, line: String },
    /// The end of a kept log.
    LogsEnd { command_id: Option<String>, target: TargetId },
}

/// The cache state of one target.
#[derive(Debug, PartialEq, Eq)]
pub struct TargetStatus {
    pub id: TargetId,
    pub state: String,
    pub key: String,
    pub last_duration_ms: Option<u64>,
}

#[derive(Debug, PartialEq, Eq)]
pub struct ExplainInput {
    pub path: String,
    pub hash: String,
    pub size: u64,
}

#[derive(Debug, PartialEq, Eq)]
pub struct ExplainDep {
    pub id: TargetId,
    pub output_hash: String,
}

#[derive(Debug, PartialEq, Eq)]
pub struct ExplainEnv {
    pub key: String,
    pub value: String,
    pub built_in: bool,
}

#[derive(Debug, PartialEq, Eq)]
pub struct ExplainOutput {
    pub path: String,
    pub hash: String,
    pub size: u64,
    pub mode: String,
}

/// The cache entry behind a cached target.
#[derive(Debug, PartialEq, Eq)]
pub struct ExplainCacheHit {
    pub built_at: String,
    pub duration_ms: u64,
    pub exit_code: i32,
    pub outputs: Vec<ExplainOutput>,
    pub outputs_content_hash: String,
}

#[derive(Debug, Clone, Copy, PartialEq, Eq, Structural)]
pub enum ShutdownReason {
    Graceful,
    Signal,
    Error,
}

#[derive(Debug, Clone, Copy, PartialEq, Eq, Structural)]
pub enum LogStream {
    Stdout,
    Stderr,
}

#[derive(Debug, Clone, Copy, PartialEq, Eq, Structural)]
pub enum TargetResultKind {
    Built,
    CacheHit,
    RemoteCacheHit,
    ExternalCacheHit,
    Skipped,
    Failed,
}

#[derive(Debug, Clone, Copy, PartialEq, Eq, Structural)]
pub enum WatchStateKind {
    Idle,
    Building,
    BuildingWithPending,
    ReloadingConfig,
    ConfigError,
}

/// How the targets of a build ended.
#[derive(Debug, Clone, Copy, PartialEq, Eq, Structural)]
pub struct TargetCounts {
    pub built: u32,
    pub cache_hit: u32,
    pub failed: u32,
    pub skipped: u32,
}

impl Default for TargetCounts {
    fn default() -> (r: Self)
        ensures
            r == (TargetCounts { built: 0, cache_hit: 0, failed: 0, skipped: 0 }),
    {
        TargetCounts { built: 0, cache_hit: 0, failed: 0, skipped: 0 }
    }
}

} // verus!
