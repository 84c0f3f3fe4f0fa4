//! The decisions around running one target: where to look before running it,
//! what its command sees, what is kept of its output, and how it ended.

use crate::config::CacheConfig;
use crate::diagnose::{diagnose_sandbox_failure, diagnosis};
use crate::digest::{hex_of, sha256};
use crate::dispatch::Completion;
use crate::events::{Event, LogStream, TargetCounts, TargetResultKind};
use crate::graph::GraphError;
use crate::key::env_views;
use crate::model::{split_label, CacheKey, ContentHash, TargetId, TargetSpec};
use crate::outputs::{compute_outputs_content_hash, output_views, outputs_bytes, OutputFile};
use crate::paths::{joined, path_join};
use crate::text::{
    cat2, cat3, decimal, from_utf8_lossy, lines, lines_of, number, owned, strs, utf8, utf8_lossy,
};
use vstd::prelude::*;
use vstd::string::*;
use vstd::utf8::{
    decode_utf8_split, encode_scalar, encode_utf8_decode_utf8, encode_utf8_first_scalar, encode_utf8_valid_utf8, is_char_boundary,
    pop_first_scalar, valid_utf8,
};

verus! {

/// Why a build came to a stop.
#[derive(Debug, PartialEq, Eq)]
pub enum ExecutorError {
    Io(String),
    Cache(String),
    Graph(GraphError),
    TargetNotFound(TargetId),
    DependencyFailed { parent: TargetId, dep: TargetId },
    Cancelled,
}

/// What is kept of a target's output, and whether it is shown again on a hit.
#[derive(Debug, Clone, Copy, PartialEq, Eq, Structural)]
pub struct LogCapture {
    /// Keep stdout and stderr with the outputs.
    pub capture: bool,
    /// Show the kept output again on a cache hit.
    pub replay: bool,
    /// How many bytes to keep of each stream.
    pub cap_bytes: usize,
}

impl Default for LogCapture {
    fn default() -> (r: Self)
        ensures
            r == (LogCapture { capture: true, replay: true, cap_bytes: 5242880 }),
    {
        LogCapture { capture: true, replay: true, cap_bytes: 5242880 }
    }
}

impl LogCapture {
    pub fn from_cache_config(c: &CacheConfig) -> (r: LogCapture)
        ensures
            r == (LogCapture { capture: c.capture_logs, replay: c.replay_logs, cap_bytes: c.log_capture_cap_bytes }),
    {
        LogCapture { capture: c.capture_logs, replay: c.replay_logs, cap_bytes: c.log_capture_cap_bytes }
    }
}

/// How a build came out.
#[derive(Debug)]
pub struct BuildSummary {
    pub counts: TargetCounts,
    pub duration_ms: u64,
    pub failed_targets: Vec<TargetId>,
    pub cache_keys: Vec<(TargetId, CacheKey)>,
}

/// How one target came out.
#[derive(Debug)]
pub enum TargetResult {
    Built { duration_ms: u64, outputs: Vec<OutputFile> },
    CacheHit { output_hash: ContentHash },
    /// Restored from the remote cache.
    RemoteCacheHit { output_hash: ContentHash },
    /// The artifact lives elsewhere; nothing was produced here.
    ExternalCacheHit { output_hash: ContentHash },
    Failed { error: String },
}

/// The hash of a result's outputs; none for a failure.
pub open spec fn result_hash(r: TargetResult) -> Option<Seq<u8>> {
    match r {
        TargetResult::Built { outputs, .. } => Some(sha256(outputs_bytes(output_views(outputs@)))),
        TargetResult::CacheHit { output_hash } => Some(output_hash@),
        TargetResult::RemoteCacheHit { output_hash } => Some(output_hash@),
        TargetResult::ExternalCacheHit { output_hash } => Some(output_hash@),
        TargetResult::Failed { .. } => None,
    }
}

impl TargetResult {
    pub open spec fn kind_of(&self) -> TargetResultKind {
        match self {
            TargetResult::Built { .. } => TargetResultKind::Built,
            TargetResult::CacheHit { .. } => TargetResultKind::CacheHit,
            TargetResult::RemoteCacheHit { .. } => TargetResultKind::RemoteCacheHit,
            TargetResult::ExternalCacheHit { .. } => TargetResultKind::ExternalCacheHit,
            TargetResult::Failed { .. } => TargetResultKind::Failed,
        }
    }

    pub fn kind(&self) -> (r: TargetResultKind)
        ensures
            r == self.kind_of(),
    {
        match self {
            TargetResult::Built { .. } => TargetResultKind::Built,
            TargetResult::CacheHit { .. } => TargetResultKind::CacheHit,
            TargetResult::RemoteCacheHit { .. } => TargetResultKind::RemoteCacheHit,
            TargetResult::ExternalCacheHit { .. } => TargetResultKind::ExternalCacheHit,
            TargetResult::Failed { .. } => TargetResultKind::Failed,
        }
    }

    /// What the dispatcher is told.
    pub fn completion(&self) -> (r: Completion)
        ensures
            r is Failed <==> self is Failed,
            r is Built <==> self is Built,
            r matches Completion::Built { output_hash } ==> result_hash(*self) == Some(output_hash@),
            r matches Completion::Hit { output_hash } ==> result_hash(*self) == Some(output_hash@),
    {
        match self {
            TargetResult::Built { outputs, .. } => Completion::Built { output_hash: compute_outputs_content_hash(outputs) },
            TargetResult::CacheHit { output_hash } => Completion::Hit { output_hash: *output_hash },
            TargetResult::RemoteCacheHit { output_hash } => Completion::Hit { output_hash: *output_hash },
            TargetResult::ExternalCacheHit { output_hash } => Completion::Hit { output_hash: *output_hash },
            TargetResult::Failed { .. } => Completion::Failed,
        }
    }
}

/// The hash of a result's outputs.
pub fn result_output_hash(r: &TargetResult) -> (h: Option<ContentHash>)
    ensures
        h is Some <==> result_hash(*r) is Some,
        h matches Some(x) ==> result_hash(*r) == Some(x@),
{
    match r {
        TargetResult::Built { outputs, .. } => Some(compute_outputs_content_hash(outputs)),
        TargetResult::CacheHit { output_hash } => Some(*output_hash),
        TargetResult::RemoteCacheHit { output_hash } => Some(*output_hash),
        TargetResult::ExternalCacheHit { output_hash } => Some(*output_hash),
        TargetResult::Failed { .. } => None,
    }
}

/// The result of an external check that found the artifact: no outputs here.
pub fn external_hit() -> (r: TargetResult)
    ensures
        r is ExternalCacheHit,
        result_hash(r) == Some(sha256(outputs_bytes(Seq::<(Seq<char>, Seq<u8>)>::empty()))),
{
    let none: Vec<OutputFile> = Vec::new();
    assert(output_views(none@) == Seq::<(Seq<char>, Seq<u8>)>::empty());
    TargetResult::ExternalCacheHit { output_hash: compute_outputs_content_hash(&none) }
}

/// A place to look for a target's result.
#[derive(Debug, Clone, Copy, PartialEq, Eq, Structural)]
pub enum Lookup {
    Local,
    Remote,
    /// The target's own check for an artifact that lives elsewhere.
    Exists,
    /// Run the command.
    Run,
}

/// Where to look for a target's result, in order. Running the command comes
/// last, and is all there is for a fresh build. The caches are for targets that
/// take part in caching; the target's own check is for all.
pub open spec fn lookup_chain(fresh: bool, cacheable: bool, remote: bool) -> Seq<Lookup> {
    if fresh {
        seq![Lookup::Run]
    } else if cacheable && remote {
        seq![Lookup::Local, Lookup::Remote, Lookup::Exists, Lookup::Run]
    } else if cacheable {
        seq![Lookup::Local, Lookup::Exists, Lookup::Run]
    } else {
        seq![Lookup::Exists, Lookup::Run]
    }
}

/// The places to look for the result of `spec`, in order.
pub fn lookups(spec: &TargetSpec, fresh: bool) -> (r: Vec<Lookup>)
    ensures
        r@ == lookup_chain(fresh, spec.cacheable(), spec.remote_cache),
{
    let mut out: Vec<Lookup> = Vec::new();
    if !fresh {
        if spec.is_cacheable() {
            out.push(Lookup::Local);
            if spec.remote_cache {
                out.push(Lookup::Remote);
            }
        }
        out.push(Lookup::Exists);
    }
    out.push(Lookup::Run);
    assert(out@ == lookup_chain(fresh, spec.cacheable(), spec.remote_cache));
    out
}

/// What follows an answer from a place to look.
#[derive(Debug)]
pub enum LookupStep {
    /// Look here next.
    Try(Lookup),
    /// This is the target's result.
    Done(TargetResult),
}

/// The search for a target's result, place by place.
#[derive(Debug)]
pub struct LookupWalk {
    places: Vec<Lookup>,
    at: usize,
    over: bool,
}

impl LookupWalk {
    /// The places to look, in order.
    pub closed spec fn places(&self) -> Seq<Lookup> {
        self.places@
    }

    /// How many places came before the one in question.
    pub closed spec fn at(&self) -> int {
        self.at as int
    }

    /// The result is there.
    pub closed spec fn over(&self) -> bool {
        self.over
    }

    /// Running the command is the last place, and only that.
    pub closed spec fn well_formed(&self) -> bool {
        &&& self.at < self.places.len()
        &&& forall|i: int| 0 <= i < self.places@.len() ==> ((#[trigger] self.places@[i]) is Run <==> i == self.places@.len() - 1)
    }

    /// Begins the search for the result of `spec`, with the first place to look.
    pub fn begin(spec: &TargetSpec, fresh: bool) -> (r: (LookupWalk, Lookup))
        ensures
            r.0.well_formed(),
            r.0.places() == lookup_chain(fresh, spec.cacheable(), spec.remote_cache),
            r.0.at() == 0,
            !r.0.over(),
            r.1 == r.0.places()[0],
    {
        let places = lookups(spec, fresh);
        let first = places[0];
        (LookupWalk { places, at: 0, over: false }, first)
    }

    /// What the place in question answered: the first result ends the search,
    /// and where there is none the next place is tried. Running the command
    /// always has a result.
    pub fn answered(&mut self, result: Option<TargetResult>) -> (step: LookupStep)
        requires
            old(self).well_formed(),
            !old(self).over(),
            old(self).places()[old(self).at()] is Run ==> result is Some,
        ensures
            final(self).well_formed(),
            final(self).places() == old(self).places(),
            match result {
                Some(r) => {
                    &&& step == LookupStep::Done(r)
                    &&& final(self).over()
                    &&& final(self).at() == old(self).at()
                },
                None => {
                    &&& !final(self).over()
                    &&& final(self).at() == old(self).at() + 1 < old(self).places().len()
                    &&& step == LookupStep::Try(old(self).places()[old(self).at() + 1])
                },
            },
    {
        match result {
            Some(r) => {
                self.over = true;
                LookupStep::Done(r)
            },
            None => {
                assert(self.places@[self.at as int] is Run <==> self.at == self.places@.len() - 1);
                self.at = self.at + 1;
                LookupStep::Try(self.places[self.at])
            },
        }
    }
}

/// The event for a target that ended: only a build has a duration and outputs,
/// only a failure has an error.
pub fn finished_event(build: &str, id: &TargetId, result: &TargetResult) -> (r: Event)
    ensures
        r matches Event::TargetFinished { build: b, id: i, result: k, duration_ms, exit_code, outputs, error } && {
            &&& b@ == build@
            &&& i@ == id@
            &&& k == result.kind_of()
            &&& exit_code is None
            &&& duration_ms == (match *result {
                TargetResult::Built { duration_ms, .. } => duration_ms,
                _ => 0,
            })
            &&& strs(outputs@) == (match *result {
                TargetResult::Built { outputs, .. } => crate::order::names_of(output_views(outputs@)),
                _ => Seq::<Seq<char>>::empty(),
            })
            &&& error is Some <==> *result is Failed
            &&& (*result matches TargetResult::Failed { error: e } ==> error->0@ == e@)
        },
{
    let mut paths: Vec<String> = Vec::new();
    let mut error: Option<String> = None;
    let mut duration: u64 = 0;
    match result {
        TargetResult::Built { duration_ms, outputs } => {
            duration = *duration_ms;
            let mut i: usize = 0;
            while i < outputs.len()
                invariant
                    i <= outputs.len(),
                    paths.len() == i,
                    forall|k: int| 0 <= k < i ==> (#[trigger] paths@[k])@ == outputs@[k].rel_path@,
                decreases outputs.len() - i,
            {
                paths.push(outputs[i].rel_path.clone());
                i = i + 1;
            }
            assert(strs(paths@) == crate::order::names_of(output_views(outputs@)));
        },
        TargetResult::Failed { error: e } => {
            error = Some(e.clone());
            assert(strs(paths@) == Seq::<Seq<char>>::empty());
        },
        _ => {
            assert(strs(paths@) == Seq::<Seq<char>>::empty());
        },
    }
    Event::TargetFinished {
        build: owned(build),
        id: id.clone(),
        result: result.kind(),
        duration_ms: duration,
        exit_code: None,
        outputs: paths,
        error,
    }
}

/// The event for a target that was skipped because `bad` failed.
pub fn skipped_event(build: &str, id: &TargetId, bad: &TargetId) -> (r: Event)
    ensures
        r matches Event::TargetFinished { build: b, id: i, result, duration_ms, exit_code, outputs, error } && b@ == build@ && i@ == id@ && result is Skipped && duration_ms == 0 && exit_code is None && outputs@.len() == 0 && error is Some && error->0@ == crate::dispatch::skip_text(bad@),
{
    Event::TargetFinished {
        build: owned(build),
        id: id.clone(),
        result: TargetResultKind::Skipped,
        duration_ms: 0,
        exit_code: None,
        outputs: Vec::new(),
        error: Some(crate::dispatch::skip_reason(bad)),
    }
}

/// What ended a run.
#[derive(Debug)]
pub enum RunEnd {
    SandboxSetup(String),
    Spawn(String),
    Cancelled,
    TimedOut,
    Wait(String),
    /// The command exited; `code` is none if a signal ended it.
    Exited { success: bool, code: Option<i32> },
    Capture(String),
    StdoutBlob(String),
    StderrBlob(String),
    CacheWrite(String),
}

/// The decimal form of an exit code.
pub open spec fn code_text(code: i32) -> Seq<char> {
    if code < 0 {
        "-"@ + decimal((-code) as nat)
    } else {
        decimal(code as nat)
    }
}

pub fn code_string(code: i32) -> (r: String)
    ensures
        r@ == code_text(code),
{
    if code < 0 {
        let n = number((-(code as i64)) as u128);
        cat2("-", n.as_str())
    } else {
        number(code as u128)
    }
}

/// The exit code that is reported: -1 for a signal.
pub open spec fn reported_code(code: Option<i32>) -> i32 {
    match code {
        Some(c) => c,
        None => -1i32,
    }
}

/// Why a run failed; none for a command that succeeded. `allowed` holds the
/// granted paths of a sandboxed command, and with it a likely cause is added to
/// the exit code.
pub open spec fn run_error(end: RunEnd, timeout_secs: Option<u64>, allowed: Option<Seq<Seq<char>>>, stderr: Seq<u8>, network: bool) -> Option<Seq<char>> {
    match end {
        RunEnd::SandboxSetup(e) => Some("sandbox setup failed: "@ + e@),
        RunEnd::Spawn(e) => Some("spawn failed: "@ + e@),
        RunEnd::Cancelled => Some("cancelled"@),
        RunEnd::TimedOut => Some("timed out after "@ + decimal((match timeout_secs {
            Some(s) => s,
            None => 0,
        }) as nat) + "s"@),
        RunEnd::Wait(e) => Some("wait failed: "@ + e@),
        RunEnd::Exited { success, code } => if success {
            None
        } else {
            let c = reported_code(code);
            let base = "exit code "@ + code_text(c);
            match allowed {
                Some(a) => match diagnosis(c, utf8_lossy(stderr), a, network) {
                    Some(hint) => Some(base + "; "@ + hint),
                    None => Some(base),
                },
                None => Some(base),
            }
        },
        RunEnd::Capture(e) => Some("capture outputs: "@ + e@),
        RunEnd::StdoutBlob(e) => Some("write stdout blob: "@ + e@),
        RunEnd::StderrBlob(e) => Some("write stderr blob: "@ + e@),
        RunEnd::CacheWrite(e) => Some("cache write: "@ + e@),
    }
}

/// The granted paths as texts.
pub open spec fn granted(allowed: Option<Vec<String>>) -> Option<Seq<Seq<char>>> {
    match allowed {
        Some(v) => Some(strs(v@)),
        None => None,
    }
}

/// Why a run of `spec` failed, if it did.
pub fn run_failure(end: &RunEnd, spec: &TargetSpec, allowed: &Option<Vec<String>>, stderr: &[u8]) -> (r: Option<String>)
    ensures
        r is Some <==> run_error(*end, spec.timeout_secs, granted(*allowed), stderr@, spec.network) is Some,
        r matches Some(m) ==> run_error(*end, spec.timeout_secs, granted(*allowed), stderr@, spec.network) == Some(m@),
{
    match end {
        RunEnd::SandboxSetup(e) => Some(cat2("sandbox setup failed: ", e.as_str())),
        RunEnd::Spawn(e) => Some(cat2("spawn failed: ", e.as_str())),
        RunEnd::Cancelled => Some(owned("cancelled")),
        RunEnd::TimedOut => {
            let secs: u64 = match spec.timeout_secs {
                Some(s) => s,
                None => 0,
            };
            let n = number(secs as u128);
            Some(cat3("timed out after ", n.as_str(), "s"))
        },
        RunEnd::Wait(e) => Some(cat2("wait failed: ", e.as_str())),
        RunEnd::Exited { success, code } => {
            if *success {
                return None;
            }
            let c: i32 = match code {
                Some(c) => *c,
                None => -1,
            };
            let n = code_string(c);
            let base = cat2("exit code ", n.as_str());
            match allowed {
                Some(a) => match diagnose_sandbox_failure(c, stderr, a, spec.network) {
                    Some(hint) => Some(cat3(base.as_str(), "; ", hint.as_str())),
                    None => Some(base),
                },
                None => Some(base),
            }
        },
        RunEnd::Capture(e) => Some(cat2("capture outputs: ", e.as_str())),
        RunEnd::StdoutBlob(e) => Some(cat2("write stdout blob: ", e.as_str())),
        RunEnd::StderrBlob(e) => Some(cat2("write stderr blob: ", e.as_str())),
        RunEnd::CacheWrite(e) => Some(cat2("cache write: ", e.as_str())),
    }
}

/// Whether a stream of a run is stored: only of a target that takes part in
/// caching, where capturing is on, and only if there is anything.
pub fn stores_stream(spec: &TargetSpec, log: &LogCapture, bytes: &Vec<u8>) -> (r: bool)
    ensures
        r == (spec.cacheable() && log.capture && bytes@.len() > 0),
{
    spec.is_cacheable() && log.capture && bytes.len() > 0
}

/// Whether a finished run is uploaded.
pub fn uploads(spec: &TargetSpec, has_uploader: bool) -> (r: bool)
    ensures
        r == (spec.cacheable() && spec.remote_cache && has_uploader),
{
    spec.is_cacheable() && spec.remote_cache && has_uploader
}

/// The variables that every command can rely on.
pub open spec fn giant_vars(key: Seq<u8>, workspace: Seq<char>, id: Seq<char>) -> Seq<(Seq<char>, Seq<char>)> {
    seq![
        ("GIANT_CACHE_KEY"@, hex_of(key)),
        ("GIANT_WORKSPACE_ROOT"@, workspace),
        ("GIANT_PACKAGE_DIR"@, joined(workspace, split_label(id).0)),
    ]
}

/// The variables that ask tools for colour although their output is a pipe.
pub open spec fn color_vars(has_term: bool) -> Seq<(Seq<char>, Seq<char>)> {
    let base = seq![
        ("FORCE_COLOR"@, "1"@),
        ("CLICOLOR_FORCE"@, "1"@),
        ("CLICOLOR"@, "1"@),
        ("PY_COLORS"@, "1"@),
        ("CARGO_TERM_COLOR"@, "always"@),
    ];
    if has_term {
        base
    } else {
        base.push(("TERM"@, "xterm-256color"@))
    }
}

fn var(name: &str, value: &str) -> (r: (String, String))
    ensures
        (r.0@, r.1@) == (name@, value@),
{
    (owned(name), owned(value))
}

/// The variables set for a command, in the order in which they are set: a later
/// one replaces an earlier one of the same name, so the target's own come last.
pub fn command_env(key: &CacheKey, workspace: &str, spec: &TargetSpec, has_term: bool) -> (r: Vec<(String, String)>)
    ensures
        env_views(r@) == giant_vars(key@, workspace@, spec.id@) + color_vars(has_term) + env_views(spec.env@),
{
    let mut out: Vec<(String, String)> = Vec::new();
    let hex = key.to_hex();
    let (package, _name) = spec.id.split();
    let dir = path_join(workspace, package);
    out.push(var("GIANT_CACHE_KEY", hex.as_str()));
    out.push(var("GIANT_WORKSPACE_ROOT", workspace));
    out.push(var("GIANT_PACKAGE_DIR", dir.as_str()));
    assert(env_views(out@) == giant_vars(key@, workspace@, spec.id@));
    let ghost head = env_views(out@);
    out.push(var("FORCE_COLOR", "1"));
    out.push(var("CLICOLOR_FORCE", "1"));
    out.push(var("CLICOLOR", "1"));
    out.push(var("PY_COLORS", "1"));
    out.push(var("CARGO_TERM_COLOR", "always"));
    if !has_term {
        out.push(var("TERM", "xterm-256color"));
    }
    assert(env_views(out@) == head + color_vars(has_term));
    let ghost base = env_views(out@);
    let mut i: usize = 0;
    assert(env_views(out@) == base + env_views(spec.env@).take(0));
    while i < spec.env.len()
        invariant
            i <= spec.env.len(),
            env_views(out@) == base + env_views(spec.env@).take(i as int),
        decreases spec.env.len() - i,
    {
        let ghost before = env_views(out@);
        let ghost ev = env_views(spec.env@);
        out.push((spec.env[i].0.clone(), spec.env[i].1.clone()));
        assert(ev[i as int] == (spec.env@[i as int].0@, spec.env@[i as int].1@));
        assert(env_views(out@) == before.push(ev[i as int]));
        assert(ev.take(i + 1) == ev.take(i as int).push(ev[i as int]));
        assert(env_views(out@) == base + ev.take(i + 1));
        i = i + 1;
    }
    assert(env_views(spec.env@).take(i as int) == env_views(spec.env@));
    out
}

/// The lines of a kept stream, to be shown again.
pub fn replay_lines(blob: &[u8]) -> (r: Vec<String>)
    ensures
        strs(r@) == lines_of(utf8_lossy(blob@)),
{
    let text = from_utf8_lossy(blob);
    lines(text.as_str())
}

/// The event for one line of output, cut where it is too long to be shown.
pub fn log_event(build: &str, id: &TargetId, stream: LogStream, line: &str) -> (r: Event)
    ensures
        r matches Event::TargetLog { build: b, id: i, stream: s, line: shown, truncated } && b@ == build@ && i@ == id@ && s == stream && truncated == (utf8(line@).len() > MAX_LINE) && (if truncated {
            shown@.is_prefix_of(line@) && shown@.len() < line@.len() && utf8(shown@).len() <= MAX_LINE && utf8(line@.take(shown@.len() as int + 1)).len() > MAX_LINE
        } else {
            shown@ == line@
        }),
{
    let (shown, truncated) = clip_line(line);
    Event::TargetLog { build: owned(build), id: id.clone(), stream, line: shown, truncated }
}

/// Lines one after the other, each with a line feed.
pub open spec fn line_bytes(lines: Seq<Seq<char>>) -> Seq<u8>
    decreases lines.len(),
{
    if lines.len() == 0 {
        Seq::<u8>::empty()
    } else {
        line_bytes(lines.drop_last()) + utf8(lines.last()).push(10)
    }
}

/// How many of the lines, from the first on, fit within a limit.
pub open spec fn fitting(lines: Seq<Seq<char>>, limit: nat) -> nat
    decreases lines.len(),
{
    if lines.len() == 0 {
        0
    } else {
        let n = fitting(lines.drop_last(), limit);
        if n + 1 == lines.len() && line_bytes(lines).len() <= limit {
            lines.len()
        } else {
            n
        }
    }
}

/// What is kept of a stream: the lines that fit, then the marker exactly if a
/// line did not.
pub open spec fn kept_stream(lines: Seq<Seq<char>>, limit: nat) -> Seq<u8> {
    let n = fitting(lines, limit);
    line_bytes(lines.take(n as int)) + if n < lines.len() {
        cut_marker()
    } else {
        Seq::<u8>::empty()
    }
}

/// More lines are more bytes.
proof fn lemma_line_bytes_grow(lines: Seq<Seq<char>>, m: int, n: int)
    requires
        0 <= m <= n <= lines.len(),
    ensures
        line_bytes(lines.take(m)).len() <= line_bytes(lines.take(n)).len(),
    decreases n - m,
{
    if m < n {
        lemma_line_bytes_grow(lines, m, n - 1);
        assert(lines.take(n).drop_last() == lines.take(n - 1));
    }
}

/// The lines that are kept are the longest run from the first on that fits:
/// they fit, and no longer run does.
pub proof fn law_longest_run(lines: Seq<Seq<char>>, limit: nat)
    ensures
        fitting(lines, limit) <= lines.len(),
        line_bytes(lines.take(fitting(lines, limit) as int)).len() <= limit,
        forall|m: int| fitting(lines, limit) < m <= lines.len() ==> line_bytes(#[trigger] lines.take(m)).len() > limit,
    decreases lines.len(),
{
    assert(lines.take(lines.len() as int) == lines);
    if lines.len() > 0 {
        let front = lines.drop_last();
        law_longest_run(front, limit);
        let k = fitting(front, limit) as int;
        let n = fitting(lines, limit);
        if n == k {
            assert(lines.take(n as int) == front.take(n as int));
            assert forall|m: int| n < m <= lines.len() implies line_bytes(#[trigger] lines.take(m)).len() > limit by {
                if m < lines.len() {
                    assert(lines.take(m) == front.take(m));
                } else if k + 1 < lines.len() {
                    assert(lines.take(k + 1) == front.take(k + 1));
                    assert(line_bytes(front.take(k + 1)).len() > limit);
                    lemma_line_bytes_grow(lines, k + 1, m);
                }
            }
        }
    } else {
        assert(lines.take(0) == Seq::<Seq<char>>::empty());
    }
}

/// The line that marks where a kept stream was cut.
pub open spec fn cut_marker() -> Seq<u8> {
    utf8("[giant: log truncated at capture cap]\n"@)
}

/// A stream as it is kept: whole lines up to a limit, then a marker.
pub struct LogBuffer {
    buf: Vec<u8>,
    cut: bool,
    capture: bool,
    cap: usize,
}

impl LogBuffer {
    pub closed spec fn bytes(&self) -> Seq<u8> {
        self.buf@
    }

    /// The limit was hit: the marker was written and nothing more is kept.
    pub closed spec fn is_cut(&self) -> bool {
        self.cut
    }

    pub closed spec fn captures(&self) -> bool {
        self.capture
    }

    pub closed spec fn limit(&self) -> nat {
        self.cap as nat
    }

    /// Without capturing nothing is kept, and what is kept in whole lines stays
    /// within the limit.
    pub closed spec fn well_formed(&self) -> bool {
        &&& !self.capture ==> self.buf@.len() == 0 && !self.cut
        &&& !self.cut ==> self.buf@.len() <= self.cap
        &&& self.cut ==> exists|n: int| 0 <= n <= self.cap && n <= self.buf@.len() && self.buf@ == #[trigger] self.buf@.take(n) + cut_marker()
    }

    /// These are the lines that were taken in.
    pub open spec fn took(&self, lines: Seq<Seq<char>>) -> bool {
        if self.captures() {
            &&& self.bytes() == kept_stream(lines, self.limit())
            &&& self.is_cut() == (fitting(lines, self.limit()) < lines.len())
        } else {
            self.bytes() == Seq::<u8>::empty() && !self.is_cut()
        }
    }

    /// A buffer that took in the lines of a stream holds the longest run of
    /// lines that fits, and behind it the marker exactly if a line did not fit;
    /// it holds nothing if it does not capture.
    pub proof fn law_stream(&self, lines: Seq<Seq<char>>)
        requires
            self.took(lines),
        ensures
            !self.captures() ==> self.bytes() == Seq::<u8>::empty(),
            self.captures() ==> exists|n: int|
                #![trigger lines.take(n)]
                {
                    &&& 0 <= n <= lines.len()
                    &&& self.bytes() == line_bytes(lines.take(n)) + if n < lines.len() {
                        cut_marker()
                    } else {
                        Seq::<u8>::empty()
                    }
                    &&& line_bytes(lines.take(n)).len() <= self.limit()
                    &&& n < lines.len() ==> line_bytes(lines.take(n + 1)).len() > self.limit()
                },
    {
        law_longest_run(lines, self.limit());
        if self.captures() {
            let n = fitting(lines, self.limit()) as int;
            assert(self.bytes() == line_bytes(lines.take(n)) + if n < lines.len() {
                cut_marker()
            } else {
                Seq::<u8>::empty()
            });
        }
    }

    /// What is kept never exceeds the limit by more than the marker.
    pub proof fn law_bounded(&self)
        requires
            self.well_formed(),
        ensures
            !self.captures() ==> self.bytes().len() == 0,
            !self.is_cut() ==> self.bytes().len() <= self.limit(),
            self.is_cut() ==> self.bytes().len() <= self.limit() + cut_marker().len(),
    {
        if self.cut {
            let n = choose|n: int| 0 <= n <= self.cap && n <= self.buf@.len() && self.buf@ == #[trigger] self.buf@.take(n) + cut_marker();
            assert(self.buf@.take(n).len() == n);
        }
    }

    pub fn new(capture: bool, cap_bytes: usize) -> (r: LogBuffer)
        ensures
            r.well_formed(),
            r.bytes() == Seq::<u8>::empty(),
            !r.is_cut(),
            r.captures() == capture,
            r.limit() == cap_bytes,
            r.took(Seq::<Seq<char>>::empty()),
    {
        assert(Seq::<Seq<char>>::empty().take(0) == Seq::<Seq<char>>::empty());
        LogBuffer { buf: Vec::new(), cut: false, capture, cap: cap_bytes }
    }

    /// What the next line does to what is kept, over the lines taken in so far.
    spec fn takes_next(&self, lines: Seq<Seq<char>>, line: Seq<char>) -> bool {
        let all = lines.push(line);
        self.captures() ==> {
            &&& self.is_cut() ==> kept_stream(all, self.limit()) == self.bytes() && fitting(all, self.limit()) < all.len()
            &&& !self.is_cut() && self.bytes().len() + utf8(line).len() + 1 <= self.limit() ==> kept_stream(all, self.limit()) == self.bytes() + utf8(line).push(10) && fitting(
                all,
                self.limit(),
            ) == all.len()
            &&& !self.is_cut() && self.bytes().len() + utf8(line).len() + 1 > self.limit() ==> kept_stream(all, self.limit()) == self.bytes() + cut_marker() && fitting(
                all,
                self.limit(),
            ) < all.len()
        }
    }

    proof fn lemma_next(&self, lines: Seq<Seq<char>>, line: Seq<char>)
        requires
            self.took(lines),
        ensures
            self.takes_next(lines, line),
    {
        let all = lines.push(line);
        let n = fitting(lines, self.limit()) as int;
        law_longest_run(lines, self.limit());
        assert(all.drop_last() == lines);
        assert(all.take(n) == lines.take(n));
        assert(all.take(all.len() as int) == all);
        assert(lines.take(lines.len() as int) == lines);
        if self.captures() && !self.is_cut() {
            assert(self.bytes() == line_bytes(lines));
        }
    }

    /// Takes in one line, without its ending. It is kept with a line feed if it
    /// still fits; the first that does not is replaced by the marker.
    pub fn push_line(&mut self, line: &str)
        requires
            old(self).well_formed(),
        ensures
            final(self).well_formed(),
            final(self).captures() == old(self).captures(),
            final(self).limit() == old(self).limit(),
            final(self).bytes() == (if !old(self).captures() || old(self).is_cut() {
                old(self).bytes()
            } else if old(self).bytes().len() + utf8(line@).len() + 1 <= old(self).limit() {
                old(self).bytes() + utf8(line@).push(10)
            } else {
                old(self).bytes() + cut_marker()
            }),
            final(self).is_cut() == (old(self).is_cut() || (old(self).captures() && old(self).bytes().len() + utf8(line@).len() + 1 > old(self).limit())),
            forall|lines: Seq<Seq<char>>| #[trigger] old(self).took(lines) ==> final(self).took(lines.push(line@)),
    {
        proof {
            assert forall|lines: Seq<Seq<char>>| #[trigger] old(self).took(lines) implies old(self).takes_next(lines, line@) by {
                old(self).lemma_next(lines, line@);
            }
        }
        if self.capture && !self.cut {
            let n: usize = line.as_bytes().len();
            if n < self.cap && self.buf.len() <= self.cap - n - 1 {
                crate::paths::push_utf8(&mut self.buf, line);
                self.buf.push(10);
                assert(self.buf@ == old(self).buf@ + utf8(line@).push(10));
            } else {
                crate::paths::push_utf8(&mut self.buf, "[giant: log truncated at capture cap]\n");
                self.cut = true;
                proof {
                    let k = old(self).buf@.len() as int;
                    assert(self.buf@.take(k) == old(self).buf@);
                    assert(self.buf@ == self.buf@.take(k) + cut_marker());
                }
            }
        }
    }

    pub fn into_bytes(self) -> (r: Vec<u8>)
        ensures
            r@ == self.bytes(),
    {
        self.buf
    }
}

/// The longest line that is shown in full, in bytes.
pub const MAX_LINE: usize = 8192;

/// The bytes of the first `n` characters end between two characters.
proof fn lemma_prefix_boundary(s: Seq<char>, n: int)
    requires
        0 <= n <= s.len(),
    ensures
        is_char_boundary(utf8(s), utf8(s.take(n)).len() as int),
        utf8(s.take(n)).len() <= utf8(s).len(),
        n < s.len() ==> utf8(s.take(n)).len() < utf8(s.take(n + 1)).len(),
    decreases s.len(),
{
    encode_utf8_valid_utf8(s);
    if s.len() > 0 {
        encode_utf8_first_scalar(s);
        let rest = s.drop_first();
        assert(utf8(s) == encode_scalar(s[0] as u32) + utf8(rest));
        assert(pop_first_scalar(utf8(s)) == utf8(rest));
        if n > 0 {
            let t = s.take(n);
            assert(t.drop_first() == rest.take(n - 1));
            assert(utf8(t) == encode_scalar(t[0] as u32) + utf8(t.drop_first()));
            lemma_prefix_boundary(rest, n - 1);
            if n < s.len() {
                let u = s.take(n + 1);
                assert(u.drop_first() == rest.take(n));
                assert(utf8(u) == encode_scalar(u[0] as u32) + utf8(u.drop_first()));
            }
        } else {
            let u = s.take(1);
            assert(s.take(0) == Seq::<char>::empty());
            assert(utf8(u) == encode_scalar(u[0] as u32) + utf8(u.drop_first()));
        }
    }
}

/// The line as it is shown, and whether it was cut. A line over the limit is cut
/// to the most characters that stay within it.
pub fn clip_line(line: &str) -> (r: (String, bool))
    ensures
        r.1 == (utf8(line@).len() > MAX_LINE),
        !r.1 ==> r.0@ == line@,
        r.1 ==> r.0@.is_prefix_of(line@) && r.0@.len() < line@.len() && utf8(r.0@).len() <= MAX_LINE && utf8(line@.take(r.0@.len() as int + 1)).len() > MAX_LINE,
{
    if line.as_bytes().len() > MAX_LINE {
        proof {
            encode_utf8_valid_utf8(line@);
        }
        let mut cut: usize = MAX_LINE;
        while !line.is_char_boundary(cut)
            invariant
                cut <= MAX_LINE < utf8(line@).len(),
                valid_utf8(utf8(line@)),
                line.spec_bytes() == utf8(line@),
                forall|j: int| cut < j <= MAX_LINE ==> !#[trigger] is_char_boundary(utf8(line@), j),
            decreases cut,
        {
            cut = cut - 1;
        }
        let (head, _tail) = line.split_at(cut);
        proof {
            let bytes = utf8(line@);
            decode_utf8_split(bytes, cut as int);
            encode_utf8_decode_utf8(line@);
            assert(utf8(head@) == bytes.subrange(0, cut as int));
            encode_utf8_decode_utf8(head@);
            assert(head@.is_prefix_of(line@));
            let n = head@.len() as int;
            assert(line@.take(n) == head@);
            assert(n < line@.len()) by {
                if n == line@.len() {
                    assert(line@ == head@);
                }
            }
            lemma_prefix_boundary(line@, n);
            lemma_prefix_boundary(line@, n + 1);
        }
        (owned(head), true)
    } else {
        (owned(line), false)
    }
}

/// A result is looked for in the local cache first, then in the remote one, then
/// by the target's own check, and the command runs last: the caches only for a
/// target that takes part in caching, the remote one only where the target
/// allows it, and nowhere at all for a fresh build.
pub proof fn law_lookup_chain(fresh: bool, cacheable: bool, remote: bool)
    ensures
        lookup_chain(fresh, cacheable, remote).last() == Lookup::Run,
        lookup_chain(fresh, cacheable, remote).contains(Lookup::Local) <==> !fresh && cacheable,
        lookup_chain(fresh, cacheable, remote).contains(Lookup::Remote) <==> !fresh && cacheable && remote,
        lookup_chain(fresh, cacheable, remote).contains(Lookup::Exists) <==> !fresh,
        forall|i: int, j: int|
            0 <= i < j < lookup_chain(fresh, cacheable, remote).len() ==> lookup_rank(#[trigger] lookup_chain(fresh, cacheable, remote)[i]) < lookup_rank(#[trigger] lookup_chain(fresh, cacheable, remote)[j]),
{
    let c = lookup_chain(fresh, cacheable, remote);
    if !fresh {
        if cacheable {
            assert(c[0] == Lookup::Local);
            if remote {
                assert(c[1] == Lookup::Remote);
                assert(c[2] == Lookup::Exists);
            } else {
                assert(c[1] == Lookup::Exists);
            }
        } else {
            assert(c[0] == Lookup::Exists);
        }
    }
}

/// How dear a place to look is.
pub open spec fn lookup_rank(l: Lookup) -> int {
    match l {
        Lookup::Local => 0,
        Lookup::Remote => 1,
        Lookup::Exists => 2,
        Lookup::Run => 3,
    }
}

/// A run has no error exactly if the command ran to its end and succeeded; a
/// failure without a sandbox is told by its exit code, and one under it starts
/// with that.
pub proof fn law_run_error(end: RunEnd, timeout_secs: Option<u64>, allowed: Option<Seq<Seq<char>>>, stderr: Seq<u8>, network: bool)
    ensures
        run_error(end, timeout_secs, allowed, stderr, network) is None <==> (end matches RunEnd::Exited { success, .. } && success),
        end matches RunEnd::Exited { success, code } ==> !success ==> {
            let m = run_error(end, timeout_secs, allowed, stderr, network)->0;
            let told = "exit code "@ + code_text(match code {
                Some(c) => c,
                None => -1i32,
            });
            &&& m.take(told.len() as int) == told
            &&& allowed is None ==> m == told
        },
{
    if let RunEnd::Exited { success, code } = end {
        if !success {
            let m = run_error(end, timeout_secs, allowed, stderr, network)->0;
            let told = "exit code "@ + code_text(reported_code(code));
            assert(m.take(told.len() as int) =~= told);
        }
    }
}

/// The value that a list of settings gives a variable: the last one of its name.
pub open spec fn last_setting(env: Seq<(Seq<char>, Seq<char>)>, name: Seq<char>) -> Option<Seq<char>>
    decreases env.len(),
{
    if env.len() == 0 {
        None
    } else if env.last().0 == name {
        Some(env.last().1)
    } else {
        last_setting(env.drop_last(), name)
    }
}

/// What a target sets itself stands over what every command gets; what it does
/// not set is the key, the root of the workspace and the package's directory,
/// and the terminal only where there is none.
pub proof fn law_command_env(key: Seq<u8>, workspace: Seq<char>, id: Seq<char>, has_term: bool, own: Seq<(Seq<char>, Seq<char>)>, name: Seq<char>)
    ensures
        last_setting(own, name) is Some ==> last_setting(giant_vars(key, workspace, id) + color_vars(has_term) + own, name) == last_setting(own, name),
        last_setting(own, "GIANT_CACHE_KEY"@) is None ==> last_setting(giant_vars(key, workspace, id) + color_vars(has_term) + own, "GIANT_CACHE_KEY"@) == Some(hex_of(key)),
        last_setting(own, "GIANT_WORKSPACE_ROOT"@) is None ==> last_setting(giant_vars(key, workspace, id) + color_vars(has_term) + own, "GIANT_WORKSPACE_ROOT"@) == Some(workspace),
        last_setting(own, "GIANT_PACKAGE_DIR"@) is None ==> last_setting(giant_vars(key, workspace, id) + color_vars(has_term) + own, "GIANT_PACKAGE_DIR"@) == Some(joined(workspace, split_label(id).0)),
        last_setting(own, "TERM"@) is None ==> (last_setting(giant_vars(key, workspace, id) + color_vars(has_term) + own, "TERM"@) is Some <==> !has_term),
        last_setting(own, "FORCE_COLOR"@) is None ==> last_setting(giant_vars(key, workspace, id) + color_vars(has_term) + own, "FORCE_COLOR"@) == Some("1"@),
{
    let base = giant_vars(key, workspace, id) + color_vars(has_term);
    lemma_last_setting(base, own, name);
    lemma_last_setting(base, own, "GIANT_CACHE_KEY"@);
    lemma_last_setting(base, own, "GIANT_WORKSPACE_ROOT"@);
    lemma_last_setting(base, own, "GIANT_PACKAGE_DIR"@);
    lemma_last_setting(base, own, "TERM"@);
    lemma_last_setting(base, own, "FORCE_COLOR"@);
    lemma_base_settings(key, workspace, id, has_term);
}

proof fn lemma_last_setting(a: Seq<(Seq<char>, Seq<char>)>, b: Seq<(Seq<char>, Seq<char>)>, name: Seq<char>)
    ensures
        last_setting(a + b, name) == (if last_setting(b, name) is Some {
            last_setting(b, name)
        } else {
            last_setting(a, name)
        }),
    decreases b.len(),
{
    if b.len() == 0 {
        assert(a + b =~= a);
    } else {
        assert((a + b).drop_last() =~= a + b.drop_last());
        assert((a + b).last() == b.last());
        lemma_last_setting(a, b.drop_last(), name);
    }
}

proof fn lemma_setting_at(v: Seq<(Seq<char>, Seq<char>)>, i: int)
    requires
        0 <= i < v.len(),
        forall|j: int| i < j < v.len() ==> (#[trigger] v[j]).0 != v[i].0,
    ensures
        last_setting(v, v[i].0) == Some(v[i].1),
    decreases v.len(),
{
    if i < v.len() - 1 {
        let f = v.drop_last();
        assert(v[v.len() - 1].0 != v[i].0);
        assert forall|j: int| i < j < f.len() implies (#[trigger] f[j]).0 != f[i].0 by {
            assert(f[j] == v[j]);
        }
        lemma_setting_at(f, i);
    }
}

proof fn lemma_no_setting(v: Seq<(Seq<char>, Seq<char>)>, name: Seq<char>)
    requires
        forall|j: int| 0 <= j < v.len() ==> (#[trigger] v[j]).0 != name,
    ensures
        last_setting(v, name) is None,
    decreases v.len(),
{
    if v.len() > 0 {
        let f = v.drop_last();
        assert(v[v.len() - 1].0 != name);
        assert forall|j: int| 0 <= j < f.len() implies (#[trigger] f[j]).0 != name by {
            assert(f[j] == v[j]);
        }
        lemma_no_setting(f, name);
    }
}

proof fn lemma_base_settings(key: Seq<u8>, workspace: Seq<char>, id: Seq<char>, has_term: bool)
    ensures
        ({
            let base = giant_vars(key, workspace, id) + color_vars(has_term);
            &&& last_setting(base, "GIANT_CACHE_KEY"@) == Some(hex_of(key))
            &&& last_setting(base, "GIANT_WORKSPACE_ROOT"@) == Some(workspace)
            &&& last_setting(base, "GIANT_PACKAGE_DIR"@) == Some(joined(workspace, split_label(id).0))
            &&& last_setting(base, "FORCE_COLOR"@) == Some("1"@)
            &&& last_setting(base, "TERM"@) is Some <==> !has_term
        }),
{
    let base = giant_vars(key, workspace, id) + color_vars(has_term);
    reveal_strlit("GIANT_CACHE_KEY");
    reveal_strlit("GIANT_WORKSPACE_ROOT");
    reveal_strlit("GIANT_PACKAGE_DIR");
    reveal_strlit("FORCE_COLOR");
    reveal_strlit("CLICOLOR_FORCE");
    reveal_strlit("CLICOLOR");
    reveal_strlit("PY_COLORS");
    reveal_strlit("CARGO_TERM_COLOR");
    reveal_strlit("TERM");
    let v = base;
    assert(v[0].0.len() == 15 && v[1].0.len() == 20 && v[2].0.len() == 17 && v[3].0.len() == 11 && v[4].0.len() == 14 && v[5].0.len() == 8 && v[6].0.len() == 9 && v[7].0.len() == 16);
    if !has_term {
        assert(v[8].0.len() == 4);
    }
    lemma_setting_at(v, 0);
    lemma_setting_at(v, 1);
    lemma_setting_at(v, 2);
    lemma_setting_at(v, 3);
    if has_term {
        lemma_no_setting(v, "TERM"@);
    } else {
        lemma_setting_at(v, 8);
    }
}

} // verus!
