//! What a client can ask of a session.

use crate::model::TargetId;
use vstd::prelude::*;

verus! {

/// One command of a session client. The answer to it carries its
/// `command_id`.
#[derive(Debug, PartialEq, Eq)]
pub enum Command {
    /// Build the targets.
    Build { command_id: Option<String>, targets: Vec<TargetId>, fresh: bool },
    /// Cancel a build that runs or waits.
    Cancel { command_id: Option<String>, build: String },
    /// Build the targets, and again whenever a change affects them.
    WatchStart { command_id: Option<String>, targets: Vec<TargetId> },
    /// End the watch, if there is one.
    WatchStop { command_id: Option<String> },
    /// Load the configuration again.
    ConfigReload { command_id: Option<String> },
    Shutdown { command_id: Option<String> },
    /// Report the targets affected since `base`, now and when the set changes.
    /// Replaces an earlier subscription.
    AffectedSubscribe { command_id: Option<String>, base: String },
    AffectedUnsubscribe { command_id: Option<String> },
    /// Report changes that touch the targets or the globs; with neither, any
    /// change. Replaces an earlier subscription.
    WatchSubscribe { command_id: Option<String>, targets: Vec<TargetId>, globs: Vec<String> },
    WatchUnsubscribe { command_id: Option<String> },
    /// Ask for the cache state of the targets; with none, of all.
    QueryStatus { command_id: Option<String>, targets: Vec<TargetId> },
    /// Ask for the kept logs of a target, of the build under `key` if given.
    LogsGet { command_id: Option<String>, target: TargetId, follow: bool, key: Option<String> },
    /// Ask what feeds a target's key.
    QueryExplain { command_id: Option<String>, target: TargetId },
}

impl Command {
    /// The id the command carries.
    pub open spec fn id(&self) -> Option<Seq<char>> {
        let c = match *self {
            Command::Build { command_id, .. } => command_id,
            Command::Cancel { command_id, .. } => command_id,
            Command::WatchStart { command_id, .. } => command_id,
            Command::WatchStop { command_id } => command_id,
            Command::ConfigReload { command_id } => command_id,
            Command::Shutdown { command_id } => command_id,
            Command::AffectedSubscribe { command_id, .. } => command_id,
            Command::AffectedUnsubscribe { command_id } => command_id,
            Command::WatchSubscribe { command_id, .. } => command_id,
            Command::WatchUnsubscribe { command_id } => command_id,
            Command::QueryStatus { command_id, .. } => command_id,
            Command::LogsGet { command_id, .. } => command_id,
            Command::QueryExplain { command_id, .. } => command_id,
        };
        match c {
            Some(s) => Some(s@),
            None => None,
        }
    }

    /// The id the command carries, if any.
    pub fn command_id(&self) -> (r: Option<&str>)
        ensures
            r is Some <==> self.id() is Some,
            r matches Some(s) ==> self.id() == Some(s@),
    {
        let c = match self {
            Command::Build { command_id, .. } => command_id,
            Command::Cancel { command_id, .. } => command_id,
            Command::WatchStart { command_id, .. } => command_id,
            Command::WatchStop { command_id } => command_id,
            Command::ConfigReload { command_id } => command_id,
            Command::Shutdown { command_id } => command_id,
            Command::AffectedSubscribe { command_id, .. } => command_id,
            Command::AffectedUnsubscribe { command_id } => command_id,
            Command::WatchSubscribe { command_id, .. } => command_id,
            Command::WatchUnsubscribe { command_id } => command_id,
            Command::QueryStatus { command_id, .. } => command_id,
            Command::LogsGet { command_id, .. } => command_id,
            Command::QueryExplain { command_id, .. } => command_id,
        };
        match c {
            Some(s) => Some(s.as_str()),
            None => None,
        }
    }
}

} // verus!
