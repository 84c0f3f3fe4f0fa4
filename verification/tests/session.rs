use giant::commands::Command;
use giant::events::{Event, LogStream, TargetCounts};
use giant::graph::BuildGraph;
use giant::key::{compute_cache_key_with_breakdown, BuiltIn, FileInputContribution};
use giant::model::{CacheKey, ContentHash, Input, TargetId, TargetSpec, WireTarget};
use giant::outputs::{ac_entry, OutputFile};
use giant::paths::OutputPath;
use giant::pattern::GlobPattern;
use giant::plan::make_plan;
use giant::query::{explain_reply, logs_reply, no_key_reason, requested_key, target_status, KeyWalk};
use giant::selection::{SelectionOpts, TestMode};
use giant::session::{catalog, name_build, Action, SessionState};
use giant::watch::{
    affected_selection, compute_affected, config_changed, config_watch_dirs, cycle_note, next_affected_cycle, relevant,
    relevant_kind, reported_paths, standard_excludes, watched_targets, watching_note, AffectedFeed, ChangeKind, Debouncer, Turn,
    Wake, WatchCycles, WatchError,
};

fn strings(v: &[&str]) -> Vec<String> {
    v.iter().map(|s| s.to_string()).collect()
}

fn spec(id: &str, deps: &[&str], outputs: &[&str], inputs: &[&str]) -> TargetSpec {
    let mut t = TargetSpec::from(WireTarget {
        name: id.rsplit([':', '/']).next().unwrap_or(id).to_string(),
        inputs: inputs.iter().map(|g| Input::File { glob: GlobPattern::new(g).unwrap() }).collect(),
        outputs: Vec::new(),
        deps: strings(deps),
        command: "true".to_string(),
        cwd: None,
        env: Vec::new(),
        cache: Some(true),
        remote_cache: true,
        network: false,
        sandbox: true,
        exists: None,
        timeout_secs: None,
        test: false,
        tags: Vec::new(),
        label: None,
        scope: Vec::new(),
    });
    t.id = TargetId::new(id);
    t.outputs = outputs.iter().map(|o| OutputPath::new(o).unwrap()).collect();
    t
}

fn graph_with(specs: Vec<TargetSpec>) -> BuildGraph {
    let mut g = BuildGraph::new();
    for s in specs {
        g.add_target(s).unwrap();
    }
    g.build_edges_and_validate().unwrap();
    g
}

fn ids(v: &[&str]) -> Vec<TargetId> {
    v.iter().map(|s| TargetId::new(s)).collect()
}

fn globs(v: &[&str]) -> Vec<GlobPattern> {
    v.iter().map(|g| GlobPattern::new(g).unwrap()).collect()
}

fn batch(v: &[&str]) -> Vec<String> {
    v.iter().map(|p| format!("/ws/{p}")).collect()
}

#[test]
fn empty_batch_is_silent() {
    let g = graph_with(vec![]);
    assert_eq!(relevant(&g, &ids(&[]), &globs(&[]), &batch(&[]), "/ws"), None);
}

#[test]
fn empty_scope_watches_whole_workspace() {
    let g = graph_with(vec![]);
    assert_eq!(
        relevant(&g, &ids(&[]), &globs(&[]), &batch(&["anything.txt"]), "/ws"),
        Some(vec!["anything.txt".to_string()]),
    );
}

#[test]
fn glob_hit_reports_workspace_relative_paths() {
    let g = graph_with(vec![]);
    let m = globs(&["tests/e2e/**/*.go"]);
    assert_eq!(
        relevant(&g, &ids(&[]), &m, &batch(&["tests/e2e/login_test.go"]), "/ws"),
        Some(vec!["tests/e2e/login_test.go".to_string()]),
    );
}

#[test]
fn glob_miss_with_no_targets_is_silent() {
    let g = graph_with(vec![]);
    let m = globs(&["tests/**/*.go"]);
    assert_eq!(relevant(&g, &ids(&[]), &m, &batch(&["src/main.rs"]), "/ws"), None);
}

#[test]
fn direct_target_hit_is_relevant() {
    let g = graph_with(vec![spec("go:bin", &[], &["bin/server"], &["cmd/**/*.go"])]);
    assert!(relevant(&g, &ids(&["go:bin"]), &globs(&[]), &batch(&["cmd/server/main.go"]), "/ws").is_some());
}

#[test]
fn transitive_dep_change_triggers_requested_target() {
    let g = graph_with(vec![
        spec("go:lib", &[], &["lib.a"], &["internal/**/*.go"]),
        spec("go:bin", &["go:lib"], &["bin/server"], &["cmd/**/*.go"]),
    ]);
    assert!(
        relevant(&g, &ids(&["go:bin"]), &globs(&[]), &batch(&["internal/store/db.go"]), "/ws").is_some(),
        "a change to a transitive dependency must be relevant",
    );
}

#[test]
fn unrelated_change_is_silent() {
    let g = graph_with(vec![spec("go:bin", &[], &["bin/server"], &["cmd/**/*.go"])]);
    assert_eq!(relevant(&g, &ids(&["go:bin"]), &globs(&[]), &batch(&["docs/readme.md"]), "/ws"), None);
}

#[test]
fn command_id_accessor_works_for_each_variant() {
    let some = |s: &str| Some(s.to_string());
    let cmds = [
        Command::Build { command_id: some("a"), targets: vec![], fresh: false },
        Command::Cancel { command_id: some("b"), build: "b1".to_string() },
        Command::Shutdown { command_id: some("c") },
    ];
    let got: Vec<&str> = cmds.iter().filter_map(|c| c.command_id()).collect();
    assert_eq!(got, vec!["a", "b", "c"]);
    assert_eq!(Command::WatchStop { command_id: None }.command_id(), None);
}

// Debouncing.

fn changed(d: &mut Debouncer, path: &str, now: u64) {
    assert!(matches!(d.step(Wake::Changed { path: path.to_string(), now }), Turn::Wait));
}

fn flushed(d: &mut Debouncer) -> Vec<String> {
    match d.step(Wake::Due) {
        Turn::Batch(b) => b,
        _ => panic!("no batch"),
    }
}

#[test]
fn debouncer_returns_single_event_after_quiet_window() {
    let mut d = Debouncer::new(30, 500);
    assert_eq!(d.until_flush(0), None);
    changed(&mut d, "a", 0);
    assert_eq!(d.until_flush(10), Some(20));
    assert_eq!(d.until_flush(40), Some(0));
    assert_eq!(flushed(&mut d), strings(&["a"]));
    assert_eq!(d.until_flush(40), None);
}

#[test]
fn debouncer_coalesces_burst() {
    let mut d = Debouncer::new(40, 500);
    for i in 0..10 {
        changed(&mut d, &format!("f{i}"), i);
    }
    assert_eq!(flushed(&mut d).len(), 10, "all 10 events should coalesce");
}

#[test]
fn debouncer_max_delay_flushes_with_streaming_events() {
    let mut d = Debouncer::new(40, 80);
    let mut now = 0;
    let mut i = 0;
    // Stream events forever - until max_delay forces a flush.
    while d.until_flush(now) != Some(0) {
        changed(&mut d, &format!("s{i}"), now);
        i += 1;
        now += 5;
        assert!(now < 200, "max_delay should bound the batch wait; got {now}");
    }
    assert!(!flushed(&mut d).is_empty(), "should have collected at least one event");
}

#[test]
fn debouncer_dedupes_same_path() {
    let mut d = Debouncer::new(30, 200);
    for i in 0..5 {
        changed(&mut d, "same", i);
    }
    assert_eq!(flushed(&mut d), strings(&["same"]));
}

#[test]
fn a_cancelled_wait_ends_with_an_empty_batch() {
    let mut d = Debouncer::new(30, 200);
    changed(&mut d, "a", 0);
    assert!(matches!(d.step(Wake::Cancelled), Turn::Batch(b) if b.is_empty()));
    assert!(matches!(d.step(Wake::Closed), Turn::Over));
}

#[test]
fn a_closed_stream_gives_up_its_rest() {
    let mut e = Debouncer::new(30, 200);
    assert!(matches!(e.step(Wake::Closed), Turn::Over));
    changed(&mut e, "b", 0);
    assert!(matches!(e.step(Wake::Closed), Turn::Batch(b) if b == strings(&["b"])));
}

// Watching.

#[test]
fn noise_never_reaches_the_debouncer() {
    let out = graph_with(vec![spec("a", &[], &["bin/a"], &["src/*"])]);
    let ex = standard_excludes("/ws", "/cache", ".giant", &out);
    assert_eq!(ex, strings(&["/ws/.git", "/ws/.giant", "/cache", "/ws/bin/a"]));
    let seen = batch(&["src/x", ".git/index", "bin/a", "bin/ab"]);
    assert_eq!(reported_paths(ChangeKind::Modify, &seen, &ex), batch(&["src/x", "bin/ab"]));
    assert!(reported_paths(ChangeKind::Other, &seen, &ex).is_empty());
    assert!(relevant_kind(ChangeKind::Create) && relevant_kind(ChangeKind::Remove) && !relevant_kind(ChangeKind::Other));
}

#[test]
fn a_cycle_builds_what_is_affected_and_selected() {
    let g = graph_with(vec![
        spec("a", &[], &["bin/a"], &["src/a/*"]),
        spec("b", &["a"], &["bin/b"], &[]),
        spec("c", &[], &["bin/c"], &["src/c/*"]),
    ]);
    assert_eq!(affected_selection(&g, &strings(&["src/a/x"]), &ids(&["b", "c"])), ids(&["b"]));
    assert_eq!(next_affected_cycle(&g, &batch(&["src/a/x"]), &ids(&["a", "c"]), "/ws"), ids(&["a"]));
    let (mut w, first) = WatchCycles::start();
    assert_eq!(first, "b_w_0001");
    let (e, none) = w.change(Vec::new());
    assert_eq!((e, none), (Event::WatchAffected { target_ids: Vec::new() }, None));
    let (_, second) = w.change(ids(&["a"]));
    assert_eq!(second.as_deref(), Some("b_w_0002"));
}

#[test]
fn a_subscription_hears_of_changes_only() {
    let mut f = AffectedFeed::new("main".to_string());
    let hit = |v: &[&str]| Some(Event::AffectedChanged { base: "main".to_string(), target_ids: ids(v) });
    assert_eq!(f.computed(Ok(ids(&["a"]))), hit(&["a"]));
    assert_eq!(f.computed(Ok(ids(&["a"]))), None);
    assert_eq!(f.computed(Ok(ids(&["b"]))), hit(&["b"]));
    let err = Some(Event::AffectedError { base: "main".to_string(), message: "x".to_string() });
    assert_eq!(f.computed(Err("x".to_string())), err);
    assert_eq!(f.computed(Ok(ids(&["b"]))), hit(&["b"]));
    let g = graph_with(vec![]);
    assert_eq!(compute_affected(&g, "main", Err("e".to_string())), Err("git diff against main: e".to_string()));
}

#[test]
fn configuration_is_watched_where_packages_are() {
    let g = graph_with(vec![spec("//src/go:a", &[], &["a"], &[]), spec("//:b", &[], &["b"], &[])]);
    assert_eq!(config_watch_dirs("/ws", &g), strings(&["/ws", "/ws/src/go"]));
    assert!(config_changed(&batch(&["src/go/giant.yaml"])));
    assert!(!config_changed(&batch(&["src/go/main.go"])));
}

// The session.

fn a_session() -> SessionState {
    SessionState::new(graph_with(vec![spec("//:a", &[], &["a"], &[]), spec("//:b", &[], &["b"], &[])]), false)
}

fn build(id: &str, targets: &[&str]) -> Command {
    Command::Build { command_id: Some(id.to_string()), targets: ids(targets), fresh: false }
}

fn accepted(id: &str, build: Option<&str>) -> Action {
    Action::Emit(Event::CommandAccepted { command_id: id.to_string(), build: build.map(|s| s.to_string()) })
}

fn rejected(id: &str, reason: &str) -> Action {
    Action::Emit(Event::CommandRejected { command_id: id.to_string(), reason: reason.to_string() })
}

fn start(id: &str, targets: &[&str]) -> Action {
    Action::StartBuild { id: id.to_string(), targets: ids(targets), fresh: false }
}

fn dropped(id: &str) -> Action {
    Action::Emit(Event::BuildFinished { id: id.to_string(), ok: false, duration_ms: 0, counts: TargetCounts::default() })
}

#[test]
fn one_build_runs_and_one_waits() {
    let mut s = a_session();
    assert_eq!(s.handle_command(build("1", &["//:a"])), vec![start("b_0001", &["//:a"]), accepted("1", Some("b_0001"))]);
    assert_eq!(s.handle_command(build("2", &["//:b"])), vec![accepted("2", Some("b_0002"))]);
    // A third build puts the waiting one aside.
    assert_eq!(s.handle_command(build("3", &["//:a"])), vec![dropped("b_0002"), accepted("3", Some("b_0003"))]);
    assert_eq!(s.on_build_finished(), vec![start("b_0003", &["//:a"])]);
    assert_eq!(s.on_build_finished(), vec![]);
    assert_eq!(name_build(3), "b_0003");
    assert_eq!(name_build(0x12345), "b_12345");
}

#[test]
fn the_latest_build_waits() {
    let mut s = a_session();
    s.handle_command(build("0", &["//:a"]));
    assert_eq!(s.handle_command(build("1", &["//:b"])), vec![accepted("1", Some("b_0002"))]);
    assert_eq!(s.handle_command(build("2", &["//:a"])), vec![dropped("b_0002"), accepted("2", Some("b_0003"))]);
    // What was put aside cannot be cancelled any more, and never starts.
    let cancel = Command::Cancel { command_id: Some("3".to_string()), build: "b_0002".to_string() };
    assert_eq!(s.handle_command(cancel), vec![rejected("3", "no build with id b_0002")]);
    assert_eq!(s.on_build_finished(), vec![start("b_0003", &["//:a"])]);
    assert_eq!(s.on_build_finished(), vec![]);
}

#[test]
fn refused_commands_change_nothing() {
    let mut s = a_session();
    assert_eq!(s.handle_command(build("1", &[])), vec![rejected("1", "build command has empty target list")]);
    assert_eq!(s.handle_command(build("2", &["//:z"])), vec![rejected("2", "unknown target: //:z")]);
    let cancel = Command::Cancel { command_id: Some("3".to_string()), build: "b_0009".to_string() };
    assert_eq!(s.handle_command(cancel), vec![rejected("3", "no build with id b_0009")]);
    assert_eq!(s.handle_command(build("4", &["//:a"]))[1], accepted("4", Some("b_0001")));
}

#[test]
fn a_watch_and_a_build_exclude_each_other() {
    let mut s = a_session();
    let watch = |id: &str| Command::WatchStart { command_id: Some(id.to_string()), targets: ids(&["//:a"]) };
    assert_eq!(s.handle_command(watch("1")), vec![Action::StartWatch { targets: ids(&["//:a"]) }, accepted("1", None)]);
    assert_eq!(s.handle_command(watch("2")), vec![rejected("2", "watch already active")]);
    assert_eq!(s.handle_command(build("3", &["//:a"])), vec![rejected("3", "watch is active - send `watch.stop` first")]);
    let stop = Command::WatchStop { command_id: None };
    assert_eq!(s.handle_command(stop), vec![Action::StopWatch]);
    s.handle_command(build("4", &["//:a"]));
    assert_eq!(s.handle_command(watch("5")), vec![rejected("5", "build in flight - try again when it finishes")]);
}

#[test]
fn cancelling_tells_the_running_build() {
    let mut s = a_session();
    s.handle_command(build("1", &["//:a"]));
    s.handle_command(build("2", &["//:b"]));
    let cancel = |b: &str| Command::Cancel { command_id: None, build: b.to_string() };
    assert_eq!(s.handle_command(cancel("b_0002")), vec![dropped("b_0002")]);
    assert_eq!(s.handle_command(cancel("b_0001")), vec![Action::CancelBuild { id: "b_0001".to_string() }]);
    assert_eq!(s.shutdown(), vec![Action::CancelBuild { id: "b_0001".to_string() }]);
}

#[test]
fn subscriptions_are_checked_and_replaced() {
    let mut s = a_session();
    let sub = |t: &[&str], g: &[&str]| Command::WatchSubscribe { command_id: Some("w".to_string()), targets: ids(t), globs: strings(g) };
    assert_eq!(s.handle_command(sub(&["//:z"], &[])), vec![rejected("w", "unknown target: //:z")]);
    assert!(matches!(&s.handle_command(sub(&[], &["a**"]))[0], Action::Emit(Event::CommandRejected { .. })));
    assert_eq!(s.handle_command(sub(&[], &["*.go"])).len(), 2);
    assert_eq!(s.handle_command(sub(&["//:a"], &[]))[0], Action::StopChanges);
    let base = |b: &str| Command::AffectedSubscribe { command_id: None, base: b.to_string() };
    assert_eq!(s.handle_command(base("x")), vec![Action::StartAffected { base: "x".to_string() }]);
    assert_eq!(
        s.handle_command(base("y")),
        vec![Action::StopAffected, Action::StartAffected { base: "y".to_string() }]
    );
    assert_eq!(s.handle_command(Command::AffectedUnsubscribe { command_id: None }), vec![Action::StopAffected]);
    assert_eq!(s.handle_command(Command::WatchUnsubscribe { command_id: None }), vec![Action::StopChanges]);
}

#[test]
fn queries_are_handed_on() {
    let mut s = a_session();
    let status = Command::QueryStatus { command_id: None, targets: vec![] };
    assert_eq!(
        s.handle_command(status),
        vec![Action::Status { command_id: None, targets: ids(&["//:a", "//:b"]) }]
    );
    let logs = Command::LogsGet { command_id: Some("l".to_string()), target: TargetId::new("//:z"), follow: false, key: None };
    assert_eq!(s.handle_command(logs), vec![rejected("l", "unknown target: //:z")]);
    let explain = Command::QueryExplain { command_id: None, target: TargetId::new("//:a") };
    assert_eq!(s.handle_command(explain), vec![Action::Explain { command_id: None, target: TargetId::new("//:a") }]);
    let end = Command::Shutdown { command_id: Some("s".to_string()) };
    assert_eq!(s.handle_command(end), vec![accepted("s", None), Action::Exit]);
}

#[test]
fn a_reload_replaces_the_graph_or_keeps_it() {
    let mut s = a_session();
    let targets = ids(&["//:a", "//:b"]);
    s.handle_command(Command::WatchStart { command_id: None, targets });
    assert_eq!(s.begin_reload(), vec![Action::Emit(Event::CatalogInvalidating), Action::StopWatch]);
    let acts = s.finish_reload(Ok(graph_with(vec![spec("//:b", &[], &["b"], &[])])), None);
    assert!(acts.contains(&Action::Emit(Event::CatalogReady)));
    assert!(acts.contains(&Action::StartWatch { targets: ids(&["//:b"]) }));
    assert_eq!(s.graph().len(), 1);
    let kept = s.finish_reload(Err("bad".to_string()), None);
    assert!(kept.contains(&Action::StartWatch { targets: ids(&["//:b"]) }));
    let acts = s.finish_reload(Err("bad".to_string()), None);
    assert!(acts.iter().any(|a| matches!(a, Action::Emit(Event::CommandError { message, .. }) if message.contains("bad"))));
    assert_eq!(s.graph().len(), 1);
}

#[test]
fn the_catalog_describes_each_target() {
    let mut t = spec("//:a", &[], &["bin/a"], &["src/*"]);
    t.tags = strings(&["z", "a"]);
    let g = graph_with(vec![t]);
    match &catalog(&g)[0] {
        Action::Emit(Event::TargetDescribed { id, tags, inputs, outputs, .. }) => {
            assert_eq!(id.as_str(), "//:a");
            assert_eq!(tags, &strings(&["a", "z"]));
            assert_eq!(inputs, &strings(&["src/*"]));
            assert_eq!(outputs, &strings(&["bin/a"]));
        },
        other => panic!("{other:?}"),
    }
}

// Queries.

fn built_in() -> BuiltIn {
    BuiltIn { target_triple: "t".to_string(), version: "1".to_string() }
}

#[test]
fn keys_are_walked_from_the_dependencies_up() {
    let g = graph_with(vec![spec("a", &[], &["a"], &[]), spec("b", &["a"], &["b"], &[])]);
    let plan = make_plan(&g, &ids(&["b"])).unwrap();
    let mut w = KeyWalk::new(plan);
    assert_eq!(w.pending(), Some(0));
    assert_eq!(w.id(0).as_str(), "a");
    let (ka, _) = w.compose(g.get(w.id(0)).unwrap(), &built_in(), vec![], vec![]).unwrap();
    let out = ContentHash::of_bytes(b"out of a");
    w.record(Some(ka), &Some(out.to_hex()));
    assert_eq!(w.pending(), Some(1));
    assert_eq!(w.dep_outputs(), Some(vec![(TargetId::new("a"), out)]));
    let (kb, _) = w.compose(g.get(w.id(1)).unwrap(), &built_in(), vec![], vec![]).unwrap();
    let b = g.get(&TargetId::new("b")).unwrap();
    let direct = compute_cache_key_with_breakdown(b, &built_in(), vec![], vec![], vec![(TargetId::new("a"), out)]);
    assert_eq!(kb, direct.0);
    w.record(Some(kb), &None);
    assert_eq!(w.pending(), None);
    assert_eq!(w.result(1).unwrap().key, kb);
    assert!(w.result(1).unwrap().output.is_none());
}

#[test]
fn status_explain_and_logs_answer() {
    let t = spec("//:a", &[], &["o"], &[]);
    let file = FileInputContribution { rel_path: "x".to_string(), content_hash: ContentHash::of_bytes(b"x"), size: 1 };
    let (key, bd) = compute_cache_key_with_breakdown(&t, &built_in(), vec![file], vec![], vec![]);
    let outs = vec![OutputFile {
        rel_path: "o".to_string(),
        content_hash: ContentHash::of_bytes(b"o"),
        size: 1,
        executable: false,
        mode: "0644".to_string(),
    }];
    let entry = Some(ac_entry(&t, &key, &outs, None, None, 5, "now".to_string()));
    let hit = target_status(&t.id, &Some(key), &entry);
    assert_eq!(hit.key, key.to_hex());
    assert_eq!(hit.last_duration_ms, Some(5));
    let miss = target_status(&t.id, &Some(key), &None);
    assert_ne!(hit.state, miss.state);
    assert_eq!(miss.last_duration_ms, None);
    match explain_reply(None, TargetId::new("//:a"), &key, &bd, &entry) {
        Event::QueryExplained { cached, file_inputs, env, cache_hit, .. } => {
            assert!(cached);
            assert_eq!(file_inputs[0].path, "x");
            assert!(env.iter().all(|e| e.built_in));
            assert_eq!(cache_hit.unwrap().outputs[0].path, "o");
        },
        other => panic!("{other:?}"),
    }
    let lines = logs_reply(None, TargetId::new("//:a"), &Some(b"a\nb\n".to_vec()), &Some(b"e\n".to_vec()));
    assert_eq!(lines.len(), 4);
    assert!(matches!(&lines[2], Event::LogsLine { stream: LogStream::Stderr, line, .. } if line == "e"));
    assert!(matches!(&lines[3], Event::LogsEnd { .. }));
    assert_eq!(requested_key(&None), Ok(None));
    assert_eq!(requested_key(&Some(key.to_hex())), Ok(Some(CacheKey::new(key.as_content_hash()))));
    assert!(requested_key(&Some("zz".to_string())).is_err());
    assert!(no_key_reason("why").contains("why"));
}

#[test]
fn a_watch_needs_something_to_watch() {
    let g = graph_with(vec![spec("//a:x", &[], &["o"], &["src/x.c"]), spec("//b:y", &[], &["p"], &["src/y.c"])]);
    let opts = SelectionOpts::default();
    let watch = |patterns: &[&str], changed: Option<Vec<String>>| {
        watched_targets(&g, &strings(patterns), TestMode::Exclude, &opts, &changed)
    };
    let all = watch(&[], None).unwrap();
    assert_eq!(all, vec![TargetId::new("//a:x"), TargetId::new("//b:y")]);
    assert_eq!(watch(&[], Some(strings(&["src/y.c"]))).unwrap(), vec![TargetId::new("//b:y")]);
    let none = watch(&["//a:x"], Some(strings(&["src/y.c"])));
    assert_eq!(none, Err(WatchError::Nothing));
    assert_eq!(none.unwrap_err().message(), "no targets to watch");
    assert!(matches!(watch(&["//a:z"], None), Err(WatchError::Selection(_))));
    assert_eq!(watching_note(&all), "watching 2 target(s) - Ctrl-C to exit");
    assert_eq!(cycle_note(&all), "2 target(s) affected, rebuilding");
    assert_eq!(cycle_note(&Vec::new()), "no targets affected");
}
