//! The verified core of `giant`, a content-addressed build engine.

pub mod clean;
pub mod cli;
pub mod commands;
pub mod config;
pub mod course;
pub mod dag;
pub mod diagnose;
pub mod digest;
pub mod discovery;
pub mod dispatch;
pub mod events;
pub mod executor;
pub mod explain;
pub mod fmt;
pub mod fsmonitor;
pub mod gha;
pub mod git;
pub mod graph;
pub mod hits;
pub mod key;
pub mod logs;
pub mod model;
pub mod order;
pub mod outputs;
pub mod paths;
pub mod pattern;
pub mod plan;
pub mod prep;
pub mod query;
pub mod rank;
pub mod readback;
pub mod remote;
pub mod run;
pub mod sandbox;
pub mod selection;
pub mod session;
pub mod text;
pub mod walk;
pub mod watch;
pub mod worktree;

