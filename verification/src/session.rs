//! A session: what the engine does on each command of a client.
//!
//! The session holds what is going on (a build that runs, one that waits, a
//! watch, subscriptions) and turns commands and completions into actions. The
//! caller performs the actions in order.

use crate::commands::Command;
use crate::events::{Event, TargetCounts};
use crate::graph::BuildGraph;
use crate::key::{file_globs, file_globs_of};
use crate::model::{copy_ids, ids_of, out_paths_of, output_texts, retained, TargetId, TargetSpec};
use crate::order::{ascending, sorted_set};
use crate::pattern::{glob_error, glob_error_text, GlobPattern};
use crate::text::{cat2, copy_strs, hex4, hex_number, lemma_hex4_injective, owned, str_eq, strs};
use crate::walk::{bad_glob, bad_glob_text};
use vstd::prelude::*;
use vstd::string::*;

verus! {

/// A build that waits for the running one.
#[derive(Debug, PartialEq, Eq)]
pub struct QueuedBuild {
    pub number: u64,
    pub targets: Vec<TargetId>,
    pub fresh: bool,
}

/// The scope of a change subscription.
#[derive(Debug, PartialEq, Eq)]
pub struct ChangeScope {
    pub targets: Vec<TargetId>,
    pub globs: Vec<String>,
}

/// What the caller has to do next.
#[derive(Debug, PartialEq, Eq)]
pub enum Action {
    Emit(Event),
    StartBuild { id: String, targets: Vec<TargetId>, fresh: bool },
    /// Cancel the build that runs.
    CancelBuild { id: String },
    StartWatch { targets: Vec<TargetId> },
    StopWatch,
    StartAffected { base: String },
    StopAffected,
    StartChanges { targets: Vec<TargetId>, globs: Vec<String> },
    StopChanges,
    /// Load the configuration and hand the graph to `finish_reload`.
    Prepare { command_id: Option<String> },
    /// Answer a status query about these targets.
    Status { command_id: Option<String>, targets: Vec<TargetId> },
    /// Answer a query for the logs of a target.
    Logs { command_id: Option<String>, target: TargetId, key: Option<String> },
    /// Answer a query for what feeds a target.
    Explain { command_id: Option<String>, target: TargetId },
    /// End the session.
    Exit,
}

/// An action, with texts and labels by their views.
#[allow(inconsistent_fields)]
pub ghost enum Act {
    Accept { command_id: Seq<char>, build: Option<Seq<char>> },
    Refuse { command_id: Seq<char>, reason: Seq<char> },
    Fail { command_id: Seq<char>, message: Seq<char> },
    Finish { id: Seq<char>, ok: bool, duration_ms: u64, counts: TargetCounts },
    Invalidate,
    Complete,
    Describe(Described),
    OtherEvent,
    StartBuild { id: Seq<char>, targets: Seq<Seq<char>>, fresh: bool },
    CancelBuild { id: Seq<char> },
    StartWatch { targets: Seq<Seq<char>> },
    StopWatch,
    StartAffected { base: Seq<char> },
    StopAffected,
    StartChanges { targets: Seq<Seq<char>>, globs: Seq<Seq<char>> },
    StopChanges,
    Prepare { command_id: Option<Seq<char>> },
    Status { command_id: Option<Seq<char>>, targets: Seq<Seq<char>> },
    Logs { command_id: Option<Seq<char>>, target: Seq<char>, key: Option<Seq<char>> },
    Explain { command_id: Option<Seq<char>>, target: Seq<char> },
    Exit,
}

/// What the catalog says of one target.
pub ghost struct Described {
    pub id: Seq<char>,
    pub tags: Seq<Seq<char>>,
    pub test: bool,
    pub command: Seq<char>,
    pub inputs: Seq<Seq<char>>,
    pub outputs: Seq<Seq<char>>,
    pub deps: Seq<Seq<char>>,
}

/// A text that may be missing, by its view.
pub open spec fn text_view(s: Option<String>) -> Option<Seq<char>> {
    match s {
        Some(t) => Some(t@),
        None => None,
    }
}

impl View for Action {
    type V = Act;

    open spec fn view(&self) -> Act {
        match *self {
            Action::Emit(e) => match e {
                Event::CommandAccepted { command_id, build } => Act::Accept { command_id: command_id@, build: text_view(build) },
                Event::CommandRejected { command_id, reason } => Act::Refuse { command_id: command_id@, reason: reason@ },
                Event::CommandError { command_id, message } => Act::Fail { command_id: command_id@, message: message@ },
                Event::BuildFinished { id, ok, duration_ms, counts } => Act::Finish { id: id@, ok, duration_ms, counts },
                Event::CatalogInvalidating => Act::Invalidate,
                Event::CatalogReady => Act::Complete,
                Event::TargetDescribed { id, tags, test, command, inputs, outputs, deps } => Act::Describe(
                    Described {
                        id: id@,
                        tags: strs(tags@),
                        test,
                        command: command@,
                        inputs: strs(inputs@),
                        outputs: strs(outputs@),
                        deps: ids_of(deps@),
                    },
                ),
                _ => Act::OtherEvent,
            },
            Action::StartBuild { id, targets, fresh } => Act::StartBuild { id: id@, targets: ids_of(targets@), fresh },
            Action::CancelBuild { id } => Act::CancelBuild { id: id@ },
            Action::StartWatch { targets } => Act::StartWatch { targets: ids_of(targets@) },
            Action::StopWatch => Act::StopWatch,
            Action::StartAffected { base } => Act::StartAffected { base: base@ },
            Action::StopAffected => Act::StopAffected,
            Action::StartChanges { targets, globs } => Act::StartChanges { targets: ids_of(targets@), globs: strs(globs@) },
            Action::StopChanges => Act::StopChanges,
            Action::Prepare { command_id } => Act::Prepare { command_id: text_view(command_id) },
            Action::Status { command_id, targets } => Act::Status { command_id: text_view(command_id), targets: ids_of(targets@) },
            Action::Logs { command_id, target, key } => Act::Logs { command_id: text_view(command_id), target: target@, key: text_view(key) },
            Action::Explain { command_id, target } => Act::Explain { command_id: text_view(command_id), target: target@ },
            Action::Exit => Act::Exit,
        }
    }
}

/// A list of actions by their views.
pub open spec fn acts(v: Seq<Action>) -> Seq<Act> {
    v.map_values(|a: Action| a@)
}

/// A build that waits.
pub ghost struct Waiting {
    pub number: int,
    pub targets: Seq<Seq<char>>,
    pub fresh: bool,
}

/// What is going on in a session. Builds are numbered from one.
pub ghost struct Session {
    /// The labels of the targets.
    pub ids: Seq<Seq<char>>,
    pub fresh_default: bool,
    pub running: Option<int>,
    pub queued: Option<Waiting>,
    pub watch: Option<Seq<Seq<char>>>,
    pub affected: Option<Seq<char>>,
    pub changes: Option<(Seq<Seq<char>>, Seq<Seq<char>>)>,
    /// How many builds were taken so far.
    pub taken: int,
}

impl Session {
    /// A build waits only behind a running one, and is the later of the two;
    /// while a watch is on, no build runs or waits; a watch has targets, and the
    /// targets of a watch and of a subscription are known.
    pub open spec fn consistent(self) -> bool {
        &&& self.taken >= 0
        &&& (self.running matches Some(n) ==> 1 <= n <= self.taken)
        &&& (self.queued is Some ==> self.running is Some && self.running->0 < self.queued->0.number <= self.taken)
        &&& (self.watch is Some ==> self.running is None && self.queued is None)
        &&& (self.watch matches Some(sel) ==> sel.len() > 0 && known(self.ids, sel))
        &&& (self.changes matches Some(c) ==> known(self.ids, c.0))
    }
}

/// All targets are among the labels.
pub open spec fn known(ids: Seq<Seq<char>>, targets: Seq<Seq<char>>) -> bool {
    forall|i: int| 0 <= i < targets.len() ==> ids.contains(#[trigger] targets[i])
}

/// The id of build `n`.
pub open spec fn build_name(n: int) -> Seq<char> {
    "b_"@ + hex4(n as nat)
}

/// No two builds have one id.
pub proof fn law_build_names_distinct(a: int, b: int)
    requires
        0 <= a,
        0 <= b,
        build_name(a) == build_name(b),
    ensures
        a == b,
{
    let x = build_name(a);
    let y = build_name(b);
    assert(x.skip("b_"@.len() as int) =~= hex4(a as nat));
    assert(y.skip("b_"@.len() as int) =~= hex4(b as nat));
    lemma_hex4_injective(a as nat, b as nat);
}

/// What happens on a command.
pub ghost struct Outcome {
    /// What is going on afterwards.
    pub session: Session,
    /// What to do first.
    pub effects: Seq<Act>,
    /// The answer, or the work that ends in one; none is due to a command that
    /// carries no id.
    pub reply: Option<Act>,
    /// Whether the session ends.
    pub exit: bool,
}

impl Outcome {
    /// Everything to do, in order.
    pub open spec fn acts(self) -> Seq<Act> {
        let a = match self.reply {
            Some(r) => self.effects.push(r),
            None => self.effects,
        };
        if self.exit {
            a.push(Act::Exit)
        } else {
            a
        }
    }
}

/// The command is taken.
pub open spec fn taken(session: Session, effects: Seq<Act>, command_id: Option<Seq<char>>, build: Option<Seq<char>>) -> Outcome {
    let reply = match command_id {
        Some(id) => Some(Act::Accept { command_id: id, build }),
        None => None,
    };
    Outcome { session, effects, reply, exit: false }
}

/// The command is refused: nothing changes.
pub open spec fn refused(session: Session, command_id: Option<Seq<char>>, reason: Seq<char>) -> Outcome {
    let reply = match command_id {
        Some(id) => Some(Act::Refuse { command_id: id, reason }),
        None => None,
    };
    Outcome { session, effects: Seq::empty(), reply, exit: false }
}

/// The command is handed to the part that answers it.
pub open spec fn handed(session: Session, effects: Seq<Act>, work: Act) -> Outcome {
    Outcome { session, effects, reply: Some(work), exit: false }
}

/// The event for a build that will not run.
pub open spec fn dropped(n: int) -> Act {
    Act::Finish { id: build_name(n), ok: false, duration_ms: 0, counts: TargetCounts { built: 0, cache_hit: 0, failed: 0, skipped: 0 } }
}

/// The complaint about the first target that is unknown.
pub open spec fn unknown(ids: Seq<Seq<char>>, targets: Seq<Seq<char>>) -> Option<Seq<char>>
    decreases targets.len(),
{
    if targets.len() == 0 {
        None
    } else if !ids.contains(targets[0]) {
        Some("unknown target: "@ + targets[0])
    } else {
        unknown(ids, targets.skip(1))
    }
}

/// What is wrong with a list of targets to build.
pub open spec fn selection_problem(ids: Seq<Seq<char>>, targets: Seq<Seq<char>>) -> Option<Seq<char>> {
    if targets.len() == 0 {
        Some("build command has empty target list"@)
    } else {
        unknown(ids, targets)
    }
}

/// The complaint about the first glob that does not compile.
pub open spec fn glob_problem(globs: Seq<Seq<char>>) -> Option<Seq<char>>
    decreases globs.len(),
{
    if globs.len() == 0 {
        None
    } else {
        match glob_error(globs[0]) {
            Some(e) => Some(bad_glob_text(globs[0], glob_error_text(e))),
            None => glob_problem(globs.skip(1)),
        }
    }
}

/// What is wrong with the scope of a subscription.
pub open spec fn scope_problem(ids: Seq<Seq<char>>, targets: Seq<Seq<char>>, globs: Seq<Seq<char>>) -> Option<Seq<char>> {
    match unknown(ids, targets) {
        Some(r) => Some(r),
        None => glob_problem(globs),
    }
}

/// The labels in ascending order, each once.
pub open spec fn is_sorted_ids(v: Seq<Seq<char>>, ids: Seq<Seq<char>>) -> bool {
    ascending(v) && forall|x: Seq<char>| v.contains(x) <==> ids.contains(x)
}

pub open spec fn sorted_ids(ids: Seq<Seq<char>>) -> Seq<Seq<char>> {
    choose|v: Seq<Seq<char>>| is_sorted_ids(v, ids)
}

/// What a build command does: the build starts, or waits and puts an earlier
/// waiting build aside.
pub open spec fn on_build(s: Session, id: Option<Seq<char>>, targets: Seq<Seq<char>>, fresh: bool) -> Outcome {
    if s.watch is Some {
        refused(s, id, "watch is active - send `watch.stop` first"@)
    } else {
        match selection_problem(s.ids, targets) {
            Some(reason) => refused(s, id, reason),
            None => {
                let n = s.taken + 1;
                let fresh = fresh || s.fresh_default;
                if s.running is None {
                    taken(
                        Session { running: Some(n), taken: n, ..s },
                        seq![Act::StartBuild { id: build_name(n), targets, fresh }],
                        id,
                        Some(build_name(n)),
                    )
                } else {
                    let gone = match s.queued {
                        Some(q) => seq![dropped(q.number)],
                        None => Seq::<Act>::empty(),
                    };
                    taken(
                        Session { queued: Some(Waiting { number: n, targets, fresh }), taken: n, ..s },
                        gone,
                        id,
                        Some(build_name(n)),
                    )
                }
            },
        }
    }
}

/// What a cancel command does: the running build is told, a waiting one is
/// dropped.
pub open spec fn on_cancel(s: Session, id: Option<Seq<char>>, build: Seq<char>) -> Outcome {
    if s.running is Some && build_name(s.running->0) == build {
        taken(s, seq![Act::CancelBuild { id: build }], id, Some(build))
    } else if s.queued is Some && build_name(s.queued->0.number) == build {
        taken(Session { queued: None, ..s }, seq![dropped(s.queued->0.number)], id, Some(build))
    } else {
        refused(s, id, "no build with id "@ + build)
    }
}

pub open spec fn on_watch_start(s: Session, id: Option<Seq<char>>, targets: Seq<Seq<char>>) -> Outcome {
    if s.watch is Some {
        refused(s, id, "watch already active"@)
    } else if s.running is Some || s.queued is Some {
        refused(s, id, "build in flight - try again when it finishes"@)
    } else {
        match selection_problem(s.ids, targets) {
            Some(reason) => refused(s, id, reason),
            None => taken(Session { watch: Some(targets), ..s }, seq![Act::StartWatch { targets }], id, None),
        }
    }
}

pub open spec fn on_subscribe(s: Session, id: Option<Seq<char>>, targets: Seq<Seq<char>>, globs: Seq<Seq<char>>) -> Outcome {
    match scope_problem(s.ids, targets, globs) {
        Some(reason) => refused(s, id, reason),
        None => taken(
            Session { changes: Some((targets, globs)), ..s },
            stop_changes(s).push(Act::StartChanges { targets, globs }),
            id,
            None,
        ),
    }
}

pub open spec fn on_status(s: Session, id: Option<Seq<char>>, targets: Seq<Seq<char>>) -> Outcome {
    if targets.len() == 0 {
        handed(s, Seq::empty(), Act::Status { command_id: id, targets: sorted_ids(s.ids) })
    } else {
        match unknown(s.ids, targets) {
            Some(reason) => refused(s, id, reason),
            None => handed(s, Seq::empty(), Act::Status { command_id: id, targets }),
        }
    }
}

/// What happens on a command.
pub open spec fn respond(s: Session, c: Command) -> Outcome {
    let id = c.id();
    match c {
        Command::Shutdown { .. } => Outcome { exit: true, ..taken(s, Seq::empty(), id, None) },
        Command::Build { targets, fresh, .. } => on_build(s, id, ids_of(targets@), fresh),
        Command::Cancel { build, .. } => on_cancel(s, id, build@),
        Command::WatchStart { targets, .. } => on_watch_start(s, id, ids_of(targets@)),
        Command::WatchStop { .. } => taken(Session { watch: None, ..s }, stop_watch(s), id, None),
        Command::ConfigReload { .. } => handed(s, teardown(s), Act::Prepare { command_id: id }),
        Command::AffectedSubscribe { base, .. } => taken(
            Session { affected: Some(base@), ..s },
            stop_affected(s).push(Act::StartAffected { base: base@ }),
            id,
            None,
        ),
        Command::AffectedUnsubscribe { .. } => taken(Session { affected: None, ..s }, stop_affected(s), id, None),
        Command::WatchSubscribe { targets, globs, .. } => on_subscribe(s, id, ids_of(targets@), strs(globs@)),
        Command::WatchUnsubscribe { .. } => taken(Session { changes: None, ..s }, stop_changes(s), id, None),
        Command::QueryStatus { targets, .. } => on_status(s, id, ids_of(targets@)),
        Command::LogsGet { target, key, .. } => match unknown(s.ids, seq![target@]) {
            Some(reason) => refused(s, id, reason),
            None => handed(s, Seq::empty(), Act::Logs { command_id: id, target: target@, key: text_view(key) }),
        },
        Command::QueryExplain { target, .. } => match unknown(s.ids, seq![target@]) {
            Some(reason) => refused(s, id, reason),
            None => handed(s, Seq::empty(), Act::Explain { command_id: id, target: target@ }),
        },
    }
}

pub open spec fn stop_watch(s: Session) -> Seq<Act> {
    if s.watch is Some {
        seq![Act::StopWatch]
    } else {
        Seq::<Act>::empty()
    }
}

pub open spec fn stop_affected(s: Session) -> Seq<Act> {
    if s.affected is Some {
        seq![Act::StopAffected]
    } else {
        Seq::<Act>::empty()
    }
}

pub open spec fn stop_changes(s: Session) -> Seq<Act> {
    if s.changes is Some {
        seq![Act::StopChanges]
    } else {
        Seq::<Act>::empty()
    }
}

/// The first half of a reload: the catalog is invalid, and what depends on the
/// graph stops.
pub open spec fn teardown(s: Session) -> Seq<Act> {
    seq![Act::Invalidate] + stop_watch(s) + stop_affected(s) + stop_changes(s)
}

/// `d` describes the target: its tags sorted, its file globs as inputs.
pub open spec fn describes(d: Described, t: TargetSpec) -> bool {
    &&& d.id == t.id@
    &&& is_sorted_ids(d.tags, strs(t.tags@))
    &&& d.test == t.test
    &&& d.command == t.command@
    &&& d.inputs == file_globs_of(t.inputs@)
    &&& d.outputs == out_paths_of(t.outputs@)
    &&& d.deps == ids_of(t.deps@)
}

/// `v` describes the targets one by one.
pub open spec fn is_catalog(v: Seq<Act>, specs: Seq<TargetSpec>) -> bool {
    v.len() == specs.len() && forall|i: int| 0 <= i < v.len() ==> (#[trigger] v[i]) is Describe && describes(v[i]->Describe_0, specs[i])
}

/// What starts again after a reload.
pub open spec fn restarts(s: Session, ids: Seq<Seq<char>>) -> Seq<Act> {
    let watch = match s.watch {
        Some(sel) => if retained(sel, ids).len() > 0 {
            seq![Act::StartWatch { targets: retained(sel, ids) }]
        } else {
            Seq::<Act>::empty()
        },
        None => Seq::<Act>::empty(),
    };
    let affected = match s.affected {
        Some(base) => seq![Act::StartAffected { base }],
        None => Seq::<Act>::empty(),
    };
    let changes = match s.changes {
        Some(c) => seq![Act::StartChanges { targets: retained(c.0, ids), globs: c.1 }],
        None => Seq::<Act>::empty(),
    };
    watch + affected + changes
}

/// What is going on after a reload with the labels `ids`: a watch and a
/// subscription lose the targets that are gone, and a watch left with none
/// ends.
pub open spec fn reloaded(s: Session, ids: Seq<Seq<char>>) -> Session {
    Session {
        ids,
        watch: match s.watch {
            Some(sel) => if retained(sel, ids).len() > 0 {
                Some(retained(sel, ids))
            } else {
                None
            },
            None => None,
        },
        changes: match s.changes {
            Some(c) => Some((retained(c.0, ids), c.1)),
            None => None,
        },
        ..s
    }
}

pub open spec fn reload_error(message: Seq<char>) -> Seq<Act> {
    seq![Act::Fail { command_id: "config.reload"@, message: "reload failed, keeping previous config: "@ + message }]
}

/// What happens when the running build has ended: the one that waits starts.
pub open spec fn build_finished(s: Session) -> (Session, Seq<Act>) {
    match s.queued {
        Some(q) => (
            Session { running: Some(q.number), queued: None, ..s },
            seq![Act::StartBuild { id: build_name(q.number), targets: q.targets, fresh: q.fresh }],
        ),
        None => (Session { running: None, ..s }, Seq::<Act>::empty()),
    }
}

/// What stops at the end of a session.
pub open spec fn shut_down(s: Session) -> Seq<Act> {
    let build = match s.running {
        Some(n) => seq![Act::CancelBuild { id: build_name(n) }],
        None => Seq::<Act>::empty(),
    };
    stop_affected(s) + stop_watch(s) + stop_changes(s) + build
}

/// Every command leaves the session consistent, and so does the end of a
/// build and a reload.
pub proof fn law_consistent(s: Session, c: Command, ids: Seq<Seq<char>>)
    requires
        s.consistent(),
    ensures
        respond(s, c).session.consistent(),
        build_finished(s).0.consistent(),
        reloaded(s, ids).consistent(),
{
    match c {
        Command::WatchStart { targets, .. } => lemma_unknown(s.ids, ids_of(targets@)),
        Command::WatchSubscribe { targets, .. } => lemma_unknown(s.ids, ids_of(targets@)),
        _ => {},
    }
    if let Some(sel) = s.watch {
        lemma_retained(sel, ids);
    }
    if let Some(scope) = s.changes {
        lemma_retained(scope.0, ids);
    }
}

/// There is a complaint exactly about a list with an unknown target.
proof fn lemma_unknown(ids: Seq<Seq<char>>, targets: Seq<Seq<char>>)
    ensures
        unknown(ids, targets) is None <==> known(ids, targets),
    decreases targets.len(),
{
    if targets.len() > 0 {
        let rest = targets.skip(1);
        lemma_unknown(ids, rest);
        if known(ids, targets) {
            assert(ids.contains(targets[0]));
            assert forall|i: int| 0 <= i < rest.len() implies ids.contains(#[trigger] rest[i]) by {
                assert(rest[i] == targets[i + 1]);
            }
        }
        if ids.contains(targets[0]) && known(ids, rest) {
            assert forall|i: int| 0 <= i < targets.len() implies ids.contains(#[trigger] targets[i]) by {
                if i > 0 {
                    assert(targets[i] == rest[i - 1]);
                }
            }
        }
    }
}

/// What is retained is known, and all is retained where all is known.
proof fn lemma_retained(v: Seq<Seq<char>>, ids: Seq<Seq<char>>)
    ensures
        known(ids, retained(v, ids)),
        known(ids, v) ==> retained(v, ids) == v,
    decreases v.len(),
{
    if v.len() > 0 {
        let front = v.drop_last();
        lemma_retained(front, ids);
        if known(ids, v) {
            assert forall|i: int| 0 <= i < front.len() implies ids.contains(#[trigger] front[i]) by {
                assert(front[i] == v[i]);
            }
            assert(ids.contains(v[v.len() - 1]));
            assert(v =~= front.push(v.last()));
        }
        let out = retained(v, ids);
        let rest = retained(front, ids);
        assert forall|i: int| 0 <= i < out.len() implies ids.contains(#[trigger] out[i]) by {
            if i < rest.len() {
                assert(out[i] == rest[i]);
            }
        }
    }
}

/// A reload that fails keeps everything that was going on, and starts it again
/// with its whole scope.
pub proof fn law_failed_reload_keeps(s: Session)
    requires
        s.consistent(),
    ensures
        reloaded(s, s.ids) == s,
        s.watch matches Some(sel) ==> restarts(s, s.ids).contains(Act::StartWatch { targets: sel }),
        s.changes matches Some(c) ==> restarts(s, s.ids).contains(Act::StartChanges { targets: c.0, globs: c.1 }),
        s.affected matches Some(base) ==> restarts(s, s.ids).contains(Act::StartAffected { base }),
{
    let v = restarts(s, s.ids);
    let n: int = if s.watch is Some {
        1
    } else {
        0
    };
    if let Some(sel) = s.watch {
        lemma_retained(sel, s.ids);
        assert(v[0] == Act::StartWatch { targets: sel });
    }
    if let Some(base) = s.affected {
        assert(v[n] == Act::StartAffected { base });
    }
    if let Some(scope) = s.changes {
        lemma_retained(scope.0, s.ids);
        assert(v[v.len() - 1] == Act::StartChanges { targets: scope.0, globs: scope.1 });
    }
}

/// The build was taken, and neither runs nor waits any more.
pub open spec fn is_gone(s: Session, n: int) -> bool {
    &&& 1 <= n <= s.taken
    &&& s.running != Some(n)
    &&& (s.queued matches Some(q) ==> q.number != n)
}

/// The act starts the build, or reports that it ended.
pub open spec fn concerns(a: Act, id: Seq<char>) -> bool {
    match a {
        Act::StartBuild { id: i, .. } => i == id,
        Act::Finish { id: i, .. } => i == id,
        _ => false,
    }
}

/// A build that is gone stays so: whatever follows, it is not started and not
/// reported again.
pub proof fn law_gone_stays_gone(s: Session, c: Command, ids: Seq<Seq<char>>, n: int)
    requires
        s.consistent(),
        is_gone(s, n),
    ensures
        is_gone(respond(s, c).session, n),
        is_gone(build_finished(s).0, n),
        is_gone(reloaded(s, ids), n),
        forall|i: int| 0 <= i < respond(s, c).acts().len() ==> !concerns(#[trigger] respond(s, c).acts()[i], build_name(n)),
        forall|i: int| 0 <= i < build_finished(s).1.len() ==> !concerns(#[trigger] build_finished(s).1[i], build_name(n)),
        forall|i: int| 0 <= i < restarts(s, ids).len() ==> !concerns(#[trigger] restarts(s, ids)[i], build_name(n)),
{
    if build_name(s.taken + 1) == build_name(n) {
        law_build_names_distinct(s.taken + 1, n);
    }
    if let Some(q) = s.queued {
        if build_name(q.number) == build_name(n) {
            law_build_names_distinct(q.number, n);
        }
    }
    let v = respond(s, c).acts();
    assert forall|i: int| 0 <= i < v.len() implies !concerns(#[trigger] v[i], build_name(n)) by {
        lemma_teardown_concerns(s, build_name(n));
    }
}

proof fn lemma_teardown_concerns(s: Session, id: Seq<char>)
    ensures
        forall|i: int| 0 <= i < teardown(s).len() ==> !concerns(#[trigger] teardown(s)[i], id),
{
}

/// The latest build waits. While a build runs and no watch is on, a first and a
/// second build command leave it running and the second build waiting. The first
/// is reported as ended without having run, once, and is gone; the two have
/// different ids; and when the running build has ended, the second starts.
pub proof fn law_latest_build_waits(
    s: Session,
    first: Option<Seq<char>>,
    first_targets: Seq<Seq<char>>,
    first_fresh: bool,
    second: Option<Seq<char>>,
    second_targets: Seq<Seq<char>>,
    second_fresh: bool,
)
    requires
        s.consistent(),
        s.running is Some,
        s.watch is None,
        first_targets.len() > 0,
        known(s.ids, first_targets),
        second_targets.len() > 0,
        known(s.ids, second_targets),
    ensures
        ({
            let a = on_build(s, first, first_targets, first_fresh);
            let b = on_build(a.session, second, second_targets, second_fresh);
            let m = s.taken + 1;
            let n = s.taken + 2;
            &&& a.session.running == s.running
            &&& a.session.queued == Some(Waiting { number: m, targets: first_targets, fresh: first_fresh || s.fresh_default })
            &&& (first matches Some(id) ==> a.reply == Some(Act::Accept { command_id: id, build: Some(build_name(m)) }))
            &&& forall|i: int| 0 <= i < a.acts().len() ==> !concerns(#[trigger] a.acts()[i], build_name(m))
            &&& b.session.running == s.running
            &&& b.session.queued == Some(Waiting { number: n, targets: second_targets, fresh: second_fresh || s.fresh_default })
            &&& (second matches Some(id) ==> b.reply == Some(Act::Accept { command_id: id, build: Some(build_name(n)) }))
            &&& b.effects == seq![dropped(m)]
            &&& is_gone(b.session, m)
            &&& build_name(m) != build_name(n)
            &&& build_finished(b.session).0.running == Some(n)
            &&& build_finished(b.session).0.queued is None
            &&& build_finished(b.session).1 == seq![Act::StartBuild { id: build_name(n), targets: second_targets, fresh: second_fresh || s.fresh_default }]
        }),
{
    lemma_unknown(s.ids, first_targets);
    lemma_unknown(s.ids, second_targets);
    let a = on_build(s, first, first_targets, first_fresh);
    let m = s.taken + 1;
    if build_name(m) == build_name(m + 1) {
        law_build_names_distinct(m, m + 1);
    }
    assert forall|i: int| 0 <= i < a.acts().len() implies !concerns(#[trigger] a.acts()[i], build_name(m)) by {
        if let Some(q) = s.queued {
            if build_name(q.number) == build_name(m) {
                law_build_names_distinct(q.number, m);
            }
        }
    }
}

/// A command that is refused changes nothing and starts nothing.
pub proof fn law_refusal_changes_nothing(s: Session, c: Command)
    requires
        respond(s, c).reply is Some,
        respond(s, c).reply->0 is Refuse,
    ensures
        respond(s, c).session == s,
        respond(s, c).effects.len() == 0,
        !respond(s, c).exit,
{
}

/// The act answers a command with the id, or hands it to the part that will.
pub open spec fn answers(a: Act, id: Seq<char>) -> bool {
    match a {
        Act::Accept { command_id, .. } => command_id == id,
        Act::Refuse { command_id, .. } => command_id == id,
        Act::Prepare { command_id } => command_id == Some(id),
        Act::Status { command_id, .. } => command_id == Some(id),
        Act::Logs { command_id, .. } => command_id == Some(id),
        Act::Explain { command_id, .. } => command_id == Some(id),
        _ => false,
    }
}

/// Every command that carries an id is answered with that id, once.
pub proof fn law_every_command_answered(s: Session, c: Command, id: Seq<char>)
    requires
        c.id() == Some(id),
    ensures
        respond(s, c).reply is Some,
        answers(respond(s, c).reply->0, id),
        forall|i: int| 0 <= i < respond(s, c).effects.len() ==> !answers(#[trigger] respond(s, c).effects[i], id),
{
    let v = respond(s, c).effects;
    assert forall|i: int| 0 <= i < v.len() implies !answers(#[trigger] v[i], id) by {
        if c is ConfigReload {
            lemma_teardown_answers_nothing(s, i, id);
        }
    }
}

proof fn lemma_teardown_answers_nothing(s: Session, i: int, id: Seq<char>)
    requires
        0 <= i < teardown(s).len(),
    ensures
        !answers(teardown(s)[i], id),
        !(teardown(s)[i] is StartBuild),
{
}

/// A command starts a build only when none runs and no watch is on.
pub proof fn law_one_build_at_a_time(s: Session, c: Command, i: int)
    requires
        0 <= i < respond(s, c).effects.len(),
        respond(s, c).effects[i] is StartBuild,
    ensures
        s.running is None,
        s.watch is None,
        respond(s, c).session.running is Some,
{
    if c is ConfigReload {
        lemma_teardown_answers_nothing(s, i, Seq::empty());
    }
}

/// A build that is taken never shares its id with one that runs or waits.
pub proof fn law_build_id_fresh(s: Session, c: Command)
    requires
        s.consistent(),
        respond(s, c).session.taken > s.taken,
    ensures
        s.running matches Some(n) ==> build_name(n) != build_name(respond(s, c).session.taken),
        s.queued matches Some(q) ==> build_name(q.number) != build_name(respond(s, c).session.taken),
{
    let t = respond(s, c).session;
    if s.running is Some && build_name(s.running->0) == build_name(t.taken) {
        law_build_names_distinct(s.running->0, t.taken);
    }
    if s.queued is Some && build_name(s.queued->0.number) == build_name(t.taken) {
        law_build_names_distinct(s.queued->0.number, t.taken);
    }
}

/// A waiting build that a command puts aside is reported as ended.
pub proof fn law_dropped_build_reported(s: Session, c: Command)
    requires
        s.queued is Some,
        respond(s, c).session.queued != s.queued,
    ensures
        respond(s, c).effects == seq![dropped(s.queued->0.number)],
{
}

proof fn lemma_acts_push(v: Seq<Action>, a: Action)
    ensures
        acts(v.push(a)) == acts(v).push(a@),
{
    assert(acts(v.push(a)) =~= acts(v).push(a@));
}

proof fn lemma_no_acts()
    ensures
        acts(Seq::<Action>::empty()) == Seq::<Act>::empty(),
{
    assert(acts(Seq::<Action>::empty()) =~= Seq::<Act>::empty());
}

/// Adds an action.
fn act(out: &mut Vec<Action>, a: Action)
    ensures
        acts(final(out)@) == acts(old(out)@).push(a@),
{
    proof {
        lemma_acts_push(out@, a);
    }
    out.push(a);
}

/// Adds the answer to a command that was taken.
fn accept(out: &mut Vec<Action>, command_id: Option<String>, build: Option<String>)
    ensures
        acts(final(out)@) == (match text_view(command_id) {
            Some(id) => acts(old(out)@).push(Act::Accept { command_id: id, build: text_view(build) }),
            None => acts(old(out)@),
        }),
{
    match command_id {
        Some(command_id) => act(out, Action::Emit(Event::CommandAccepted { command_id, build })),
        None => {},
    }
}

/// The answer to a command that is refused.
fn refuse(command_id: Option<String>, reason: String) -> (r: Vec<Action>)
    ensures
        forall|s: Session| acts(r@) == #[trigger] refused(s, text_view(command_id), reason@).acts(),
{
    let mut out: Vec<Action> = Vec::new();
    proof {
        lemma_no_acts();
    }
    match command_id {
        Some(command_id) => act(&mut out, Action::Emit(Event::CommandRejected { command_id, reason })),
        None => {},
    }
    out
}

/// The event for a build that will not run.
fn drop_build(number: u64) -> (r: Action)
    ensures
        r@ == dropped(number as int),
{
    Action::Emit(Event::BuildFinished { id: name_build(number), ok: false, duration_ms: 0, counts: TargetCounts::default() })
}

/// The id of a build.
pub fn name_build(number: u64) -> (r: String)
    ensures
        r@ == build_name(number as int),
{
    let h = hex_number(number);
    cat2("b_", h.as_str())
}

/// The state of a session.
pub struct SessionState {
    graph: BuildGraph,
    fresh_default: bool,
    running: Option<u64>,
    queued: Option<QueuedBuild>,
    watch: Option<Vec<TargetId>>,
    affected: Option<String>,
    changes: Option<ChangeScope>,
    next_build_seq: u64,
}

impl View for SessionState {
    type V = Session;

    closed spec fn view(&self) -> Session {
        Session {
            ids: self.graph.ids(),
            fresh_default: self.fresh_default,
            running: match self.running {
                Some(n) => Some(n as int),
                None => None,
            },
            queued: match self.queued {
                Some(q) => Some(Waiting { number: q.number as int, targets: ids_of(q.targets@), fresh: q.fresh }),
                None => None,
            },
            watch: match self.watch {
                Some(v) => Some(ids_of(v@)),
                None => None,
            },
            affected: text_view(self.affected),
            changes: match self.changes {
                Some(c) => Some((ids_of(c.targets@), strs(c.globs@))),
                None => None,
            },
            taken: self.next_build_seq as int,
        }
    }
}

/// The complaint about the first of `targets` that the graph does not have.
pub fn unknown_target(graph: &BuildGraph, targets: &Vec<TargetId>) -> (r: Option<String>)
    requires
        graph.well_formed(),
    ensures
        text_view(r) == unknown(graph.ids(), ids_of(targets@)),
{
    let ghost tv = ids_of(targets@);
    let mut i: usize = 0;
    assert(tv.skip(0) == tv);
    while i < targets.len()
        invariant
            i <= targets.len(),
            graph.well_formed(),
            tv == ids_of(targets@),
            unknown(graph.ids(), tv) == unknown(graph.ids(), tv.skip(i as int)),
        decreases targets.len() - i,
    {
        assert(tv.skip(i as int)[0] == targets@[i as int]@);
        if graph.get(&targets[i]).is_none() {
            return Some(cat2("unknown target: ", targets[i].as_str()));
        }
        assert(tv.skip(i as int).skip(1) == tv.skip(i + 1));
        i = i + 1;
    }
    None
}

/// The complaint about the first glob that does not compile.
pub fn bad_scope_glob(globs: &Vec<String>) -> (r: Option<String>)
    ensures
        text_view(r) == glob_problem(strs(globs@)),
{
    let ghost gv = strs(globs@);
    let mut i: usize = 0;
    assert(gv.skip(0) == gv);
    while i < globs.len()
        invariant
            i <= globs.len(),
            gv == strs(globs@),
            glob_problem(gv) == glob_problem(gv.skip(i as int)),
        decreases globs.len() - i,
    {
        assert(gv.skip(i as int)[0] == globs@[i as int]@);
        match GlobPattern::new(globs[i].as_str()) {
            Err(e) => {
                let m = e.message();
                return Some(bad_glob(globs[i].as_str(), m.as_str()));
            },
            Ok(_) => {},
        }
        assert(gv.skip(i as int).skip(1) == gv.skip(i + 1));
        i = i + 1;
    }
    None
}

/// The targets that the graph still has, in order.
fn still_known(graph: &BuildGraph, targets: &Vec<TargetId>) -> (r: Vec<TargetId>)
    requires
        graph.well_formed(),
    ensures
        ids_of(r@) == retained(ids_of(targets@), graph.ids()),
{
    let ghost tv = ids_of(targets@);
    let mut out: Vec<TargetId> = Vec::new();
    let mut i: usize = 0;
    assert(ids_of(out@) == tv.take(0));
    while i < targets.len()
        invariant
            i <= targets.len(),
            graph.well_formed(),
            tv == ids_of(targets@),
            ids_of(out@) == retained(tv.take(i as int), graph.ids()),
        decreases targets.len() - i,
    {
        let ghost before = ids_of(out@);
        assert(tv.take(i + 1).drop_last() == tv.take(i as int));
        assert(tv.take(i + 1).last() == targets@[i as int]@);
        if graph.get(&targets[i]).is_some() {
            out.push(targets[i].clone());
            assert(ids_of(out@) == before.push(targets@[i as int]@));
        }
        i = i + 1;
    }
    assert(tv.take(i as int) == tv);
    out
}

/// The labels of all targets, sorted.
pub fn all_ids(graph: &BuildGraph) -> (r: Vec<TargetId>)
    requires
        graph.well_formed(),
    ensures
        is_sorted_ids(ids_of(r@), graph.ids()),
        ids_of(r@) == sorted_ids(graph.ids()),
{
    let n: usize = graph.len();
    let mut flags: Vec<bool> = Vec::new();
    let mut i: usize = 0;
    while i < n
        invariant
            i <= n,
            flags.len() == i,
            forall|k: int| 0 <= k < i ==> #[trigger] flags@[k],
        decreases n - i,
    {
        flags.push(true);
        i = i + 1;
    }
    let r = graph.flagged(&flags);
    proof {
        let v = ids_of(r@);
        assert forall|x: Seq<char>| v.contains(x) <==> graph.ids().contains(x) by {
            if graph.ids().contains(x) {
                let k = choose|k: int| 0 <= k < graph.ids().len() && graph.ids()[k] == x;
                assert(flags@[k]);
            }
        }
        assert(is_sorted_ids(v, graph.ids()));
        let w = sorted_ids(graph.ids());
        assert(is_sorted_ids(w, graph.ids()));
        crate::order::lemma_ascending_unique(v, w);
    }
    r
}

/// The catalog event of a target.
pub fn describe(t: &TargetSpec) -> (r: Action)
    ensures
        r@ is Describe,
        describes(r@->Describe_0, *t),
{
    let tags = sorted_set(&t.tags);
    Action::Emit(
        Event::TargetDescribed {
            id: t.id.clone(),
            tags,
            test: t.test,
            command: t.command.clone(),
            inputs: file_globs(&t.inputs),
            outputs: output_texts(&t.outputs),
            deps: copy_ids(&t.deps),
        },
    )
}

/// The catalog: one event for each target.
pub fn catalog(graph: &BuildGraph) -> (r: Vec<Action>)
    ensures
        is_catalog(acts(r@), graph.specs()),
{
    let n: usize = graph.len();
    let mut out: Vec<Action> = Vec::new();
    let mut i: usize = 0;
    while i < n
        invariant
            i <= n,
            n == graph.specs().len(),
            out.len() == i,
            forall|k: int| 0 <= k < i ==> (#[trigger] out@[k])@ is Describe && describes(out@[k]@->Describe_0, graph.specs()[k]),
        decreases n - i,
    {
        let a = describe(graph.at(i));
        out.push(a);
        i = i + 1;
    }
    proof {
        let v = acts(out@);
        assert forall|k: int| 0 <= k < v.len() implies (#[trigger] v[k]) is Describe && describes(v[k]->Describe_0, graph.specs()[k]) by {
            assert(v[k] == out@[k]@);
        }
    }
    out
}

impl SessionState {
    /// The graph is well-formed and what is going on is consistent.
    pub closed spec fn well_formed(&self) -> bool {
        self.graph.well_formed() && self@.consistent()
    }

    /// In every state of a session, what is going on is consistent: at most one
    /// build runs and at most one waits, and neither while a watch is on.
    pub proof fn law_state_consistent(&self)
        requires
            self.well_formed(),
        ensures
            self@.consistent(),
    {
    }

    /// The targets.
    pub closed spec fn specs(&self) -> Seq<TargetSpec> {
        self.graph.specs()
    }

    pub fn new(graph: BuildGraph, fresh_default: bool) -> (r: SessionState)
        requires
            graph.well_formed(),
        ensures
            r.well_formed(),
            r.specs() == graph.specs(),
            r@ == (Session {
                ids: graph.ids(),
                fresh_default,
                running: None,
                queued: None,
                watch: None,
                affected: None,
                changes: None,
                taken: 0,
            }),
    {
        SessionState {
            graph,
            fresh_default,
            running: None,
            queued: None,
            watch: None,
            affected: None,
            changes: None,
            next_build_seq: 0,
        }
    }

    /// The graph that the session builds from.
    pub fn graph(&self) -> (r: &BuildGraph)
        requires
            self.well_formed(),
        ensures
            r.well_formed(),
            r.specs() == self.specs(),
            r.ids() == self@.ids,
    {
        &self.graph
    }

    /// What is wrong with a list of targets to build.
    pub fn validate_targets(&self, targets: &Vec<TargetId>) -> (r: Option<String>)
        requires
            self.well_formed(),
        ensures
            text_view(r) == selection_problem(self@.ids, ids_of(targets@)),
    {
        if targets.len() == 0 {
            return Some(owned("build command has empty target list"));
        }
        unknown_target(&self.graph, targets)
    }

    /// What is wrong with the scope of a subscription. It may name no target,
    /// but those it names must exist, and its globs must compile.
    pub fn validate_subscribe(&self, targets: &Vec<TargetId>, globs: &Vec<String>) -> (r: Option<String>)
        requires
            self.well_formed(),
        ensures
            text_view(r) == scope_problem(self@.ids, ids_of(targets@), strs(globs@)),
    {
        match unknown_target(&self.graph, targets) {
            Some(reason) => Some(reason),
            None => bad_scope_glob(globs),
        }
    }

    fn build(&mut self, command_id: Option<String>, targets: Vec<TargetId>, fresh: bool) -> (r: Vec<Action>)
        requires
            old(self).well_formed(),
            old(self)@.taken < u64::MAX,
        ensures
            final(self).well_formed(),
            final(self).specs() == old(self).specs(),
            final(self)@ == on_build(old(self)@, text_view(command_id), ids_of(targets@), fresh).session,
            acts(r@) == on_build(old(self)@, text_view(command_id), ids_of(targets@), fresh).acts(),
    {
        if self.watch.is_some() {
            return refuse(command_id, owned("watch is active - send `watch.stop` first"));
        }
        match self.validate_targets(&targets) {
            Some(reason) => {
                return refuse(command_id, reason);
            },
            None => {},
        }
        let ghost o = on_build(self@, text_view(command_id), ids_of(targets@), fresh);
        let fresh: bool = fresh || self.fresh_default;
        let mut out: Vec<Action> = Vec::new();
        proof {
            lemma_no_acts();
        }
        self.next_build_seq = self.next_build_seq + 1;
        let number: u64 = self.next_build_seq;
        if self.running.is_none() {
            self.running = Some(number);
            act(&mut out, Action::StartBuild { id: name_build(number), targets, fresh });
            assert(acts(out@) == o.effects);
        } else {
            match &self.queued {
                Some(q) => act(&mut out, drop_build(q.number)),
                None => {},
            }
            assert(acts(out@) == o.effects);
            self.queued = Some(QueuedBuild { number, targets, fresh });
        }
        accept(&mut out, command_id, Some(name_build(number)));
        out
    }

    fn cancel(&mut self, command_id: Option<String>, build: String) -> (r: Vec<Action>)
        requires
            old(self).well_formed(),
        ensures
            final(self).well_formed(),
            final(self).specs() == old(self).specs(),
            final(self)@ == on_cancel(old(self)@, text_view(command_id), build@).session,
            acts(r@) == on_cancel(old(self)@, text_view(command_id), build@).acts(),
    {
        let mut out: Vec<Action> = Vec::new();
        proof {
            lemma_no_acts();
        }
        match self.running {
            Some(n) => {
                let name = name_build(n);
                if str_eq(name.as_str(), build.as_str()) {
                    act(&mut out, Action::CancelBuild { id: build.clone() });
                    assert(acts(out@) == seq![Act::CancelBuild { id: build@ }]);
                    accept(&mut out, command_id, Some(build));
                    return out;
                }
            },
            None => {},
        }
        let waiting: Option<u64> = match &self.queued {
            Some(q) => Some(q.number),
            None => None,
        };
        match waiting {
            Some(n) => {
                let name = name_build(n);
                if str_eq(name.as_str(), build.as_str()) {
                    self.queued = None;
                    act(&mut out, drop_build(n));
                    assert(acts(out@) == seq![dropped(n as int)]);
                    accept(&mut out, command_id, Some(build));
                    return out;
                }
            },
            None => {},
        }
        refuse(command_id, cat2("no build with id ", build.as_str()))
    }

    fn watch_start(&mut self, command_id: Option<String>, targets: Vec<TargetId>) -> (r: Vec<Action>)
        requires
            old(self).well_formed(),
        ensures
            final(self).well_formed(),
            final(self).specs() == old(self).specs(),
            final(self)@ == on_watch_start(old(self)@, text_view(command_id), ids_of(targets@)).session,
            acts(r@) == on_watch_start(old(self)@, text_view(command_id), ids_of(targets@)).acts(),
    {
        if self.watch.is_some() {
            return refuse(command_id, owned("watch already active"));
        }
        if self.running.is_some() || self.queued.is_some() {
            return refuse(command_id, owned("build in flight - try again when it finishes"));
        }
        match self.validate_targets(&targets) {
            Some(reason) => {
                return refuse(command_id, reason);
            },
            None => {},
        }
        let mut out: Vec<Action> = Vec::new();
        proof {
            lemma_no_acts();
            lemma_unknown(self@.ids, ids_of(targets@));
        }
        act(&mut out, Action::StartWatch { targets: copy_ids(&targets) });
        assert(acts(out@) == seq![Act::StartWatch { targets: ids_of(targets@) }]);
        self.watch = Some(targets);
        accept(&mut out, command_id, None);
        out
    }

    /// What stops the watch, the subscription to affected targets and the
    /// subscription to changes, as far as they are on.
    fn stops(&self, watch: bool, affected: bool, changes: bool) -> (r: Vec<Action>)
        ensures
            acts(r@) == (if watch { stop_watch(self@) } else { Seq::<Act>::empty() }) + (if affected { stop_affected(self@) } else { Seq::<Act>::empty() })
                + (if changes { stop_changes(self@) } else { Seq::<Act>::empty() }),
    {
        let mut out: Vec<Action> = Vec::new();
        proof {
            lemma_no_acts();
        }
        if watch && self.watch.is_some() {
            act(&mut out, Action::StopWatch);
        }
        assert(acts(out@) == (if watch { stop_watch(self@) } else { Seq::<Act>::empty() }));
        let ghost v1 = acts(out@);
        if affected && self.affected.is_some() {
            act(&mut out, Action::StopAffected);
        }
        assert(acts(out@) == v1 + (if affected { stop_affected(self@) } else { Seq::<Act>::empty() }));
        let ghost v2 = acts(out@);
        if changes && self.changes.is_some() {
            act(&mut out, Action::StopChanges);
        }
        assert(acts(out@) == v2 + (if changes { stop_changes(self@) } else { Seq::<Act>::empty() }));
        out
    }

    fn subscribe(&mut self, command_id: Option<String>, targets: Vec<TargetId>, globs: Vec<String>) -> (r: Vec<Action>)
        requires
            old(self).well_formed(),
        ensures
            final(self).well_formed(),
            final(self).specs() == old(self).specs(),
            final(self)@ == on_subscribe(old(self)@, text_view(command_id), ids_of(targets@), strs(globs@)).session,
            acts(r@) == on_subscribe(old(self)@, text_view(command_id), ids_of(targets@), strs(globs@)).acts(),
    {
        match self.validate_subscribe(&targets, &globs) {
            Some(reason) => {
                return refuse(command_id, reason);
            },
            None => {},
        }
        let mut out = self.stops(false, false, true);
        proof {
            lemma_unknown(self@.ids, ids_of(targets@));
        }
        assert(acts(out@) == stop_changes(self@));
        act(&mut out, Action::StartChanges { targets: copy_ids(&targets), globs: copy_strs(&globs) });
        self.changes = Some(ChangeScope { targets, globs });
        accept(&mut out, command_id, None);
        out
    }

    fn status(&self, command_id: Option<String>, targets: Vec<TargetId>) -> (r: Vec<Action>)
        requires
            self.well_formed(),
        ensures
            on_status(self@, text_view(command_id), ids_of(targets@)).session == self@,
            acts(r@) == on_status(self@, text_view(command_id), ids_of(targets@)).acts(),
    {
        let mut out: Vec<Action> = Vec::new();
        proof {
            lemma_no_acts();
        }
        if targets.len() == 0 {
            act(&mut out, Action::Status { command_id, targets: all_ids(&self.graph) });
            return out;
        }
        match unknown_target(&self.graph, &targets) {
            Some(reason) => refuse(command_id, reason),
            None => {
                act(&mut out, Action::Status { command_id, targets });
                out
            },
        }
    }

    /// What to do on a command.
    pub fn handle_command(&mut self, cmd: Command) -> (r: Vec<Action>)
        requires
            old(self).well_formed(),
            old(self)@.taken < u64::MAX,
        ensures
            final(self).well_formed(),
            final(self).specs() == old(self).specs(),
            final(self)@ == respond(old(self)@, cmd).session,
            acts(r@) == respond(old(self)@, cmd).acts(),
    {
        let ghost before = self@;
        proof {
            lemma_no_acts();
        }
        match cmd {
            Command::Shutdown { command_id } => {
                let mut out: Vec<Action> = Vec::new();
                accept(&mut out, command_id, None);
                act(&mut out, Action::Exit);
                out
            },
            Command::Build { command_id, targets, fresh } => self.build(command_id, targets, fresh),
            Command::Cancel { command_id, build } => self.cancel(command_id, build),
            Command::WatchStart { command_id, targets } => self.watch_start(command_id, targets),
            Command::WatchStop { command_id } => {
                let mut out = self.stops(true, false, false);
                assert(acts(out@) == stop_watch(before));
                self.watch = None;
                accept(&mut out, command_id, None);
                out
            },
            Command::ConfigReload { command_id } => {
                let mut out = self.begin_reload();
                act(&mut out, Action::Prepare { command_id });
                out
            },
            Command::AffectedSubscribe { command_id, base } => {
                let mut out = self.stops(false, true, false);
                assert(acts(out@) == stop_affected(before));
                act(&mut out, Action::StartAffected { base: base.clone() });
                self.affected = Some(base);
                accept(&mut out, command_id, None);
                out
            },
            Command::AffectedUnsubscribe { command_id } => {
                let mut out = self.stops(false, true, false);
                assert(acts(out@) == stop_affected(before));
                self.affected = None;
                accept(&mut out, command_id, None);
                out
            },
            Command::WatchSubscribe { command_id, targets, globs } => self.subscribe(command_id, targets, globs),
            Command::WatchUnsubscribe { command_id } => {
                let mut out = self.stops(false, false, true);
                assert(acts(out@) == stop_changes(before));
                self.changes = None;
                accept(&mut out, command_id, None);
                out
            },
            Command::QueryStatus { command_id, targets } => self.status(command_id, targets),
            Command::LogsGet { command_id, target, follow: _, key } => {
                let one: Vec<TargetId> = vec![target.clone()];
                assert(ids_of(one@) == seq![target@]);
                match unknown_target(&self.graph, &one) {
                    Some(reason) => refuse(command_id, reason),
                    None => {
                        let mut out: Vec<Action> = Vec::new();
                        act(&mut out, Action::Logs { command_id, target, key });
                        out
                    },
                }
            },
            Command::QueryExplain { command_id, target } => {
                let one: Vec<TargetId> = vec![target.clone()];
                assert(ids_of(one@) == seq![target@]);
                match unknown_target(&self.graph, &one) {
                    Some(reason) => refuse(command_id, reason),
                    None => {
                        let mut out: Vec<Action> = Vec::new();
                        act(&mut out, Action::Explain { command_id, target });
                        out
                    },
                }
            },
        }
    }

    /// The first half of a reload. The configuration is loaded next, and its
    /// graph goes to `finish_reload`.
    pub fn begin_reload(&self) -> (r: Vec<Action>)
        ensures
            acts(r@) == teardown(self@),
    {
        let mut out: Vec<Action> = Vec::new();
        proof {
            lemma_no_acts();
        }
        act(&mut out, Action::Emit(Event::CatalogInvalidating));
        let mut stops = self.stops(true, true, true);
        let ghost a = out@;
        let ghost b = stops@;
        out.append(&mut stops);
        assert(acts(a + b) == acts(a) + acts(b));
        assert(acts(out@) == teardown(self@));
        out
    }

    /// The second half of a reload: a graph that was loaded replaces the old
    /// one, a failure leaves it; either way the catalog is sent again and what
    /// was on starts again.
    pub fn finish_reload(&mut self, prepared: Result<BuildGraph, String>, command_id: Option<String>) -> (r: Vec<Action>)
        requires
            old(self).well_formed(),
            prepared matches Ok(g) ==> g.well_formed(),
        ensures
            final(self).well_formed(),
            final(self).specs() == (match prepared {
                Ok(g) => g.specs(),
                Err(_) => old(self).specs(),
            }),
            final(self)@ == reloaded(old(self)@, final(self)@.ids),
            final(self)@.ids == (match prepared {
                Ok(g) => g.ids(),
                Err(_) => old(self)@.ids,
            }),
            exists|c: Seq<Act>| #[trigger] is_catalog(c, final(self).specs()) && acts(r@) == taken(
                final(self)@,
                (match prepared {
                    Ok(_) => Seq::<Act>::empty(),
                    Err(e) => reload_error(e@),
                }) + c + seq![Act::Complete] + restarts(old(self)@, final(self)@.ids),
                text_view(command_id),
                None,
            ).acts(),
    {
        let ghost before = self@;
        let mut out: Vec<Action> = Vec::new();
        proof {
            lemma_no_acts();
        }
        match prepared {
            Ok(g) => {
                self.graph = g;
            },
            Err(e) => {
                act(
                    &mut out,
                    Action::Emit(
                        Event::CommandError {
                            command_id: owned("config.reload"),
                            message: cat2("reload failed, keeping previous config: ", e.as_str()),
                        },
                    ),
                );
                assert(acts(out@) == reload_error(e@));
            },
        }
        let ghost v0 = acts(out@);
        let mut described = catalog(&self.graph);
        let ghost c = acts(described@);
        let ghost a = out@;
        let ghost b = described@;
        out.append(&mut described);
        assert(acts(a + b) == acts(a) + acts(b));
        act(&mut out, Action::Emit(Event::CatalogReady));
        assert(acts(out@) == v0 + c + seq![Act::Complete]);
        let ghost v1 = acts(out@);
        let ghost ids = self.graph.ids();
        let watch = match &self.watch {
            Some(sel) => {
                let left = still_known(&self.graph, sel);
                if left.len() > 0 {
                    act(&mut out, Action::StartWatch { targets: copy_ids(&left) });
                    Some(left)
                } else {
                    None
                }
            },
            None => None,
        };
        self.watch = watch;
        let ghost w = if before.watch is Some && retained(before.watch->0, ids).len() > 0 {
            seq![Act::StartWatch { targets: retained(before.watch->0, ids) }]
        } else {
            Seq::<Act>::empty()
        };
        assert(acts(out@) == v1 + w);
        match &self.affected {
            Some(base) => act(&mut out, Action::StartAffected { base: base.clone() }),
            None => {},
        }
        let ghost f = match before.affected {
            Some(base) => seq![Act::StartAffected { base }],
            None => Seq::<Act>::empty(),
        };
        assert(acts(out@) == v1 + (w + f));
        let changes = match &self.changes {
            Some(scope) => {
                let left = still_known(&self.graph, &scope.targets);
                act(&mut out, Action::StartChanges { targets: copy_ids(&left), globs: copy_strs(&scope.globs) });
                Some(ChangeScope { targets: left, globs: copy_strs(&scope.globs) })
            },
            None => None,
        };
        self.changes = changes;
        assert(restarts(before, ids) == w + f + (match before.changes {
            Some(s) => seq![Act::StartChanges { targets: retained(s.0, ids), globs: s.1 }],
            None => Seq::<Act>::empty(),
        }));
        assert(acts(out@) == v1 + restarts(before, ids));
        assert(v0 + c + seq![Act::Complete] + restarts(before, ids) == v1 + restarts(before, ids));
        proof {
            law_consistent(before, Command::Shutdown { command_id: None }, ids);
        }
        assert(is_catalog(c, self.specs()));
        accept(&mut out, command_id, None);
        out
    }

    /// What to do when the running build has ended.
    pub fn on_build_finished(&mut self) -> (r: Vec<Action>)
        requires
            old(self).well_formed(),
        ensures
            final(self).well_formed(),
            final(self).specs() == old(self).specs(),
            final(self)@ == build_finished(old(self)@).0,
            acts(r@) == build_finished(old(self)@).1,
    {
        let mut out: Vec<Action> = Vec::new();
        proof {
            lemma_no_acts();
        }
        self.running = None;
        match self.queued.take() {
            Some(q) => {
                self.running = Some(q.number);
                act(&mut out, Action::StartBuild { id: name_build(q.number), targets: q.targets, fresh: q.fresh });
            },
            None => {},
        }
        assert(acts(out@) == build_finished(old(self)@).1);
        out
    }

    /// What to do at the end of the session. A waiting build is dropped without
    /// a report.
    pub fn shutdown(&mut self) -> (r: Vec<Action>)
        requires
            old(self).well_formed(),
        ensures
            final(self).well_formed(),
            final(self).specs() == old(self).specs(),
            final(self)@ == (Session { running: None, queued: None, watch: None, affected: None, changes: None, ..old(self)@ }),
            acts(r@) == shut_down(old(self)@),
    {
        let ghost before = self@;
        let mut out = self.stops(false, true, false);
        let mut second = self.stops(true, false, true);
        let ghost a = out@;
        let ghost b = second@;
        out.append(&mut second);
        assert(acts(a + b) == acts(a) + acts(b));
        assert(acts(out@) == stop_affected(before) + stop_watch(before) + stop_changes(before));
        match self.running {
            Some(n) => act(&mut out, Action::CancelBuild { id: name_build(n) }),
            None => {},
        }
        assert(acts(out@) == shut_down(before));
        self.running = None;
        self.queued = None;
        self.watch = None;
        self.affected = None;
        self.changes = None;
        out
    }
}

/// A question about the state of no target in particular is one about every
/// target: the labels are asked for in ascending order, each once.
pub proof fn law_status_of_all(s: Session, id: Option<Seq<char>>, v: Seq<Seq<char>>)
    requires
        ascending(v),
        forall|x: Seq<char>| v.contains(x) <==> s.ids.contains(x),
    ensures
        on_status(s, id, Seq::empty()).reply == Some(Act::Status { command_id: id, targets: v }),
        on_status(s, id, Seq::empty()).session == s,
{
    assert(is_sorted_ids(v, s.ids));
    let w = sorted_ids(s.ids);
    assert(is_sorted_ids(w, s.ids));
    crate::order::lemma_ascending_unique(v, w);
}

/// A command that names a target that there is not is refused, and the refusal
/// names a target of the command that there is not.
pub proof fn law_unknown_target_refused(s: Session, c: Command, id: Seq<char>, targets: Seq<Seq<char>>, i: int)
    requires
        c.id() == Some(id),
        0 <= i < targets.len(),
        !s.ids.contains(targets[i]),
        match c {
            Command::Build { targets: v, .. } => s.watch is None && targets == ids_of(v@),
            Command::WatchStart { targets: v, .. } => s.watch is None && s.running is None && s.queued is None && targets == ids_of(v@),
            Command::WatchSubscribe { targets: v, .. } => targets == ids_of(v@),
            Command::QueryStatus { targets: v, .. } => targets == ids_of(v@),
            Command::LogsGet { target, .. } => targets == seq![target@],
            Command::QueryExplain { target, .. } => targets == seq![target@],
            _ => false,
        },
    ensures
        exists|k: int|
            0 <= k < targets.len() && !s.ids.contains(targets[k]) && respond(s, c).reply == Some(
                Act::Refuse { command_id: id, reason: "unknown target: "@ + #[trigger] targets[k] },
            ),
{
    lemma_first_unknown(s.ids, targets, i);
}

/// The complaint about a list with an unknown target names one of them.
proof fn lemma_first_unknown(ids: Seq<Seq<char>>, targets: Seq<Seq<char>>, i: int)
    requires
        0 <= i < targets.len(),
        !ids.contains(targets[i]),
    ensures
        exists|k: int|
            0 <= k < targets.len() && !ids.contains(targets[k]) && unknown(ids, targets) == Some(
                "unknown target: "@ + #[trigger] targets[k],
            ),
    decreases targets.len(),
{
    if !ids.contains(targets[0]) {
        assert(unknown(ids, targets) == Some("unknown target: "@ + targets[0]));
    } else {
        let rest = targets.skip(1);
        assert(rest[i - 1] == targets[i]);
        lemma_first_unknown(ids, rest, i - 1);
        let k = choose|k: int|
            0 <= k < rest.len() && !ids.contains(rest[k]) && unknown(ids, rest) == Some("unknown target: "@ + #[trigger] rest[k]);
        assert(rest[k] == targets[k + 1]);
    }
}

/// A build of known targets while no watch is on is taken: what was asked for
/// runs at once or waits.
pub proof fn law_build_taken(s: Session, id: Seq<char>, targets: Seq<Seq<char>>, fresh: bool)
    requires
        s.watch is None,
        targets.len() > 0,
        known(s.ids, targets),
    ensures
        ({
            let r = on_build(s, Some(id), targets, fresh);
            &&& r.reply is Some
            &&& r.reply->0 matches Act::Accept { command_id, build } && command_id == id && build == Some(build_name(r.session.taken))
            &&& r.session.taken == s.taken + 1
            &&& if s.running is None {
                &&& r.session.running == Some(r.session.taken)
                &&& r.effects.len() == 1
                &&& r.effects[0] matches Act::StartBuild { id: b, targets: t, fresh: f }
                &&& b == build_name(r.session.taken)
                &&& t == targets
                &&& f == (fresh || s.fresh_default)
            } else {
                &&& r.session.running == s.running
                &&& r.session.queued matches Some(q)
                &&& q.number == r.session.taken
                &&& q.targets == targets
                &&& q.fresh == (fresh || s.fresh_default)
            }
        }),
{
    lemma_unknown(s.ids, targets);
}

/// While a watch is on, no build is taken.
pub proof fn law_no_build_while_watching(s: Session, id: Seq<char>, targets: Seq<Seq<char>>, fresh: bool)
    requires
        s.watch is Some,
    ensures
        on_build(s, Some(id), targets, fresh).session == s,
        on_build(s, Some(id), targets, fresh).effects.len() == 0,
        on_build(s, Some(id), targets, fresh).reply is Some,
        on_build(s, Some(id), targets, fresh).reply->0 is Refuse,
{
}

/// A watch starts on just the targets asked for, exactly if none is on, no build
/// is under way and the targets are known.
pub proof fn law_watch_starts(s: Session, id: Option<Seq<char>>, targets: Seq<Seq<char>>)
    requires
        s.watch is None,
    ensures
        ({
            let r = on_watch_start(s, id, targets);
            let free = s.running is None && s.queued is None && targets.len() > 0 && known(s.ids, targets);
            &&& r.session.watch == (if free {
                Some(targets)
            } else {
                None
            })
            &&& r.effects.contains(Act::StartWatch { targets }) <==> free
        }),
{
    if known(s.ids, targets) {
        lemma_unknown(s.ids, targets);
    } else {
        let i = choose|i: int| 0 <= i < targets.len() && !s.ids.contains(#[trigger] targets[i]);
        lemma_first_unknown(s.ids, targets, i);
    }
    let r = on_watch_start(s, id, targets);
    if s.running is None && s.queued is None && targets.len() > 0 && known(s.ids, targets) {
        assert(r.effects[0] == Act::StartWatch { targets });
    }
}

/// A watch that was started and then stopped leaves the session as it was.
pub proof fn law_watch_stop_undoes(s: Session, c: Command, id: Option<Seq<char>>, targets: Seq<Seq<char>>)
    requires
        s.watch is None,
        s.running is None,
        s.queued is None,
        targets.len() > 0,
        known(s.ids, targets),
        c is WatchStop,
    ensures
        respond(on_watch_start(s, id, targets).session, c).session == s,
        respond(on_watch_start(s, id, targets).session, c).effects.contains(Act::StopWatch),
{
    lemma_unknown(s.ids, targets);
    assert(respond(on_watch_start(s, id, targets).session, c).effects[0] == Act::StopWatch);
}

/// A subscription replaces the one before: that one stops, and the new one starts
/// with just what was asked for, if its targets are known and its globs compile.
pub proof fn law_subscription_replaced(s: Session, id: Option<Seq<char>>, targets: Seq<Seq<char>>, globs: Seq<Seq<char>>)
    requires
        known(s.ids, targets),
        forall|i: int| 0 <= i < globs.len() ==> glob_error(#[trigger] globs[i]) is None,
    ensures
        ({
            let r = on_subscribe(s, id, targets, globs);
            &&& r.session.changes == Some((targets, globs))
            &&& r.effects.len() > 0
            &&& r.effects.last() == Act::StartChanges { targets, globs }
            &&& s.changes is Some <==> r.effects.contains(Act::StopChanges)
        }),
{
    lemma_unknown(s.ids, targets);
    lemma_globs_compile(globs);
    let r = on_subscribe(s, id, targets, globs);
    if s.changes is Some {
        assert(r.effects[0] == Act::StopChanges);
    }
}

/// A subscription with a glob that does not compile is refused and leaves the one
/// before in place.
pub proof fn law_bad_glob_refused(s: Session, id: Seq<char>, targets: Seq<Seq<char>>, globs: Seq<Seq<char>>, i: int)
    requires
        0 <= i < globs.len(),
        glob_error(globs[i]) is Some,
    ensures
        on_subscribe(s, Some(id), targets, globs).session == s,
        on_subscribe(s, Some(id), targets, globs).reply is Some,
        on_subscribe(s, Some(id), targets, globs).reply->0 is Refuse,
        on_subscribe(s, Some(id), targets, globs).effects.len() == 0,
{
    lemma_glob_refused(globs, i);
}

proof fn lemma_globs_compile(globs: Seq<Seq<char>>)
    requires
        forall|i: int| 0 <= i < globs.len() ==> glob_error(#[trigger] globs[i]) is None,
    ensures
        glob_problem(globs) is None,
    decreases globs.len(),
{
    if globs.len() > 0 {
        assert(glob_error(globs[0]) is None);
        assert forall|i: int| 0 <= i < globs.skip(1).len() implies glob_error(#[trigger] globs.skip(1)[i]) is None by {
            assert(globs.skip(1)[i] == globs[i + 1]);
        }
        lemma_globs_compile(globs.skip(1));
    }
}

proof fn lemma_glob_refused(globs: Seq<Seq<char>>, i: int)
    requires
        0 <= i < globs.len(),
        glob_error(globs[i]) is Some,
    ensures
        glob_problem(globs) is Some,
    decreases globs.len(),
{
    if glob_error(globs[0]) is None {
        assert(globs.skip(1)[i - 1] == globs[i]);
        lemma_glob_refused(globs.skip(1), i - 1);
    }
}

/// A cancel command reaches the build that it names: the running one is told to
/// stop, one that waits never runs, and no other build is touched.
pub proof fn law_cancel(s: Session, id: Option<Seq<char>>, n: int)
    requires
        s.consistent(),
        1 <= n <= s.taken,
    ensures
        ({
            let r = on_cancel(s, id, build_name(n));
            &&& r.effects.contains(Act::CancelBuild { id: build_name(n) }) <==> s.running == Some(n)
            &&& r.session.running == s.running
            &&& (s.queued matches Some(q) ==> (r.session.queued is None <==> q.number == n))
            &&& (s.queued is None ==> r.session.queued is None)
            &&& (s.queued matches Some(q) && q.number != n ==> r.session.queued == s.queued)
            &&& (id is Some && is_gone(s, n) ==> r.reply is Some && r.reply->0 is Refuse)
        }),
{
    let r = on_cancel(s, id, build_name(n));
    if let Some(m) = s.running {
        if build_name(m) == build_name(n) {
            law_build_names_distinct(m, n);
            assert(r.effects[0] == Act::CancelBuild { id: build_name(n) });
        }
    }
    if let Some(q) = s.queued {
        if build_name(q.number) == build_name(n) {
            law_build_names_distinct(q.number, n);
        }
    }
    if s.running != Some(n) {
        assert forall|i: int| 0 <= i < r.effects.len() implies #[trigger] r.effects[i] != (Act::CancelBuild { id: build_name(n) }) by {}
    }
}

/// At the end of a session everything that goes on stops, and nothing else does.
pub proof fn law_shut_down(s: Session, b: Seq<char>)
    ensures
        s.watch is Some <==> shut_down(s).contains(Act::StopWatch),
        s.affected is Some <==> shut_down(s).contains(Act::StopAffected),
        s.changes is Some <==> shut_down(s).contains(Act::StopChanges),
        shut_down(s).contains(Act::CancelBuild { id: b }) <==> (s.running is Some && b == build_name(s.running->0)),
        forall|i: int|
            0 <= i < shut_down(s).len() ==> match #[trigger] shut_down(s)[i] {
                Act::StopWatch | Act::StopAffected | Act::StopChanges | Act::CancelBuild { .. } => true,
                _ => false,
            },
{
    let v = shut_down(s);
    let a: int = if s.affected is Some {
        1
    } else {
        0
    };
    let w: int = if s.watch is Some {
        a + 1
    } else {
        a
    };
    let c: int = if s.changes is Some {
        w + 1
    } else {
        w
    };
    if s.affected is Some {
        assert(v[0] == Act::StopAffected);
    }
    if s.watch is Some {
        assert(v[a] == Act::StopWatch);
    }
    if s.changes is Some {
        assert(v[w] == Act::StopChanges);
    }
    if s.running is Some {
        assert(v[c] == Act::CancelBuild { id: build_name(s.running->0) });
    }
}

/// A reload stops all that depends on the graph and starts it again: what is
/// stopped is what was going on, and what starts again is what still is.
pub proof fn law_reload_stops(s: Session, c: Command)
    requires
        c is ConfigReload,
    ensures
        respond(s, c).effects.len() > 0,
        respond(s, c).effects[0] == Act::Invalidate,
        s.watch is Some <==> respond(s, c).effects.contains(Act::StopWatch),
        s.affected is Some <==> respond(s, c).effects.contains(Act::StopAffected),
        s.changes is Some <==> respond(s, c).effects.contains(Act::StopChanges),
        respond(s, c).session == s,
{
    let v = respond(s, c).effects;
    let w: int = if s.watch is Some {
        2
    } else {
        1
    };
    let a: int = if s.affected is Some {
        w + 1
    } else {
        w
    };
    if s.watch is Some {
        assert(v[1] == Act::StopWatch);
    }
    if s.affected is Some {
        assert(v[w] == Act::StopAffected);
    }
    if s.changes is Some {
        assert(v[a] == Act::StopChanges);
    }
}

/// After a reload a watch goes on with those of its targets that there still are,
/// in their order, and ends if none is left; a subscription keeps its globs.
pub proof fn law_reload_keeps_known(s: Session, ids: Seq<Seq<char>>)
    ensures
        s.watch matches Some(sel) ==> ({
            let left = sel.filter(|x: Seq<char>| ids.contains(x));
            &&& reloaded(s, ids).watch == (if left.len() > 0 {
                Some(left)
            } else {
                None
            })
            &&& left.len() > 0 ==> restarts(s, ids).contains(Act::StartWatch { targets: left })
        }),
        s.watch is None ==> reloaded(s, ids).watch is None,
        s.changes matches Some(c) ==> ({
            let left = c.0.filter(|x: Seq<char>| ids.contains(x));
            &&& reloaded(s, ids).changes == Some((left, c.1))
            &&& restarts(s, ids).contains(Act::StartChanges { targets: left, globs: c.1 })
        }),
        s.affected matches Some(base) ==> restarts(s, ids).contains(Act::StartAffected { base }),
        reloaded(s, ids).affected == s.affected,
        reloaded(s, ids).running == s.running,
        reloaded(s, ids).queued == s.queued,
        reloaded(s, ids).ids == ids,
{
    let v = restarts(s, ids);
    let n: int = if s.watch is Some && retained(s.watch->0, ids).len() > 0 {
        1
    } else {
        0
    };
    if let Some(sel) = s.watch {
        crate::model::law_retained(sel, ids);
        if retained(sel, ids).len() > 0 {
            assert(v[0] == Act::StartWatch { targets: retained(sel, ids) });
        }
    }
    if let Some(base) = s.affected {
        assert(v[n] == Act::StartAffected { base });
    }
    if let Some(scope) = s.changes {
        crate::model::law_retained(scope.0, ids);
        assert(v[v.len() - 1] == Act::StartChanges { targets: retained(scope.0, ids), globs: scope.1 });
    }
}

/// The catalog describes every target once, in the order of the targets: its
/// command, its globs, its outputs and its dependencies as they are, and its tags
/// without one lost.
pub proof fn law_catalog(v: Seq<Act>, specs: Seq<TargetSpec>, i: int, tag: Seq<char>)
    requires
        is_catalog(v, specs),
        0 <= i < specs.len(),
    ensures
        v.len() == specs.len(),
        v[i] is Describe,
        ({
            let d = v[i]->Describe_0;
            let t = specs[i];
            &&& d.id == t.id@
            &&& d.command == t.command@
            &&& d.test == t.test
            &&& d.tags.contains(tag) <==> strs(t.tags@).contains(tag)
            &&& d.deps.len() == t.deps@.len()
            &&& forall|k: int| 0 <= k < d.deps.len() ==> #[trigger] d.deps[k] == t.deps@[k]@
            &&& d.outputs.len() == t.outputs@.len()
        }),
{
    assert(v[i] is Describe && describes(v[i]->Describe_0, specs[i]));
}

} // verus!
