use giant::course::{Build, BuildStep};
use giant::diagnose::{diagnose_sandbox_failure, first_denied_path};
use giant::dispatch::{skip_reason, Completion, Dispatcher, Plan, Step};
use giant::events::{Event, LogStream, TargetCounts, TargetResultKind};
use giant::executor::{
    clip_line, command_env, external_hit, finished_event, log_event, lookups, replay_lines, result_output_hash, run_failure,
    skipped_event, stores_stream, uploads, LogBuffer, LogCapture, Lookup, LookupStep, LookupWalk, RunEnd, TargetResult,
};
use giant::key::{
    compute_cache_key, file_globs, glob_kind, has_glob_metachars, structural_specs, BuiltIn, FileInputContribution, GlobKind,
    StructuralContribution,
};
use giant::model::{CacheKey, ContentHash, Input, TargetId, TargetSpec, WireTarget};
use giant::outputs::{
    ac_entry, blob_matches, compute_outputs_content_hash, file_perms, output_files, output_parent_to_create, EntryKind,
    OutputFile,
};
use giant::paths::{OutputPath, WsRelPath};
use giant::pattern::GlobPattern;
use giant::walk::{input_paths, select_walked, shallow_pattern, walk_skips};

fn strings(v: &[&str]) -> Vec<String> {
    v.iter().map(|s| s.to_string()).collect()
}

fn spec(id: &str, deps: &[&str], outputs: &[&str], inputs: &[&str]) -> TargetSpec {
    let mut t = TargetSpec::from(WireTarget {
        name: id.rsplit([':', '/']).next().unwrap_or(id).to_string(),
        inputs: inputs.iter().map(|g| Input::File { glob: GlobPattern::new(g).unwrap() }).collect(),
        outputs: Vec::new(),
        deps: strings(deps),
        command: "true".to_string(),
        cwd: None,
        env: Vec::new(),
        cache: Some(true),
        remote_cache: true,
        network: false,
        sandbox: true,
        exists: None,
        timeout_secs: None,
        test: false,
        tags: Vec::new(),
        label: None,
        scope: Vec::new(),
    });
    t.id = TargetId::new(id);
    t.outputs = outputs.iter().map(|o| OutputPath::new(o).unwrap()).collect();
    t
}

fn parent(p: &str) -> Option<String> {
    output_parent_to_create(p)
}

#[test]
fn literal_output_creates_its_parent() {
    assert_eq!(parent("bin/app"), Some("bin".to_string()));
    assert_eq!(parent("a/b/c.txt"), Some("a/b".to_string()));
    // Top-level literal has no parent above the workspace root.
    assert_eq!(parent("app.txt"), None);
}

#[test]
fn glob_output_creates_only_the_literal_prefix() {
    assert_eq!(parent("gen/*.txt"), Some("gen".to_string()));
    // The `**` must never become a literal directory.
    assert_eq!(parent("gen/**/*.go"), Some("gen".to_string()));
    assert_eq!(parent("a/b/**/c.txt"), Some("a/b".to_string()));
    // A top-level glob has no literal prefix to create.
    assert_eq!(parent("*.txt"), None);
}

#[test]
fn diagnose_setup_failure_by_code_or_signature() {
    let none = Vec::new();
    // The 125 setup code, with no stderr at all.
    let d = diagnose_sandbox_failure(125, b"", &none, false).unwrap();
    assert!(d.contains("could not enter the sandbox"), "{d}");
    // A recognisable backend error at any exit code.
    let d = diagnose_sandbox_failure(1, b"giant-sandbox: entering the sandbox: ...", &none, false).unwrap();
    assert!(d.contains("could not enter the sandbox"), "{d}");
}

#[test]
fn diagnose_network_only_when_denied() {
    let none = Vec::new();
    let err = b"npm error network getaddrinfo EAI_AGAIN registry.npmjs.org";
    let d = diagnose_sandbox_failure(1, err, &none, false).unwrap();
    assert!(d.contains("network"), "{d}");
    // With `network: true` the same output is not a sandbox network denial.
    let allowed_net = diagnose_sandbox_failure(1, err, &none, true);
    assert!(
        allowed_net.is_none() || !allowed_net.as_deref().unwrap().contains("network"),
        "{allowed_net:?}",
    );
}

#[test]
fn diagnose_undeclared_vs_declared_path() {
    // A denied path outside the granted set reads as undeclared.
    let err = b"cat: /etc/secret: Permission denied";
    let allowed = strings(&["/work/data.txt"]);
    let d = diagnose_sandbox_failure(1, err, &allowed, false).unwrap();
    assert!(d.contains("/etc/secret") && d.contains("not a declared"), "{d}");

    // A denied path *inside* the granted set is a read/write mismatch.
    let err = b"open '/work/out/x': Operation not permitted";
    let allowed = strings(&["/work/out"]);
    let d = diagnose_sandbox_failure(1, err, &allowed, false).unwrap();
    assert!(d.contains("/work/out/x") && d.contains("declared"), "{d}");
}

#[test]
fn diagnose_generic_denial_and_silence() {
    let nothing = Vec::new();
    // Permission denied with no extractable path → generic FS hint.
    let d = diagnose_sandbox_failure(1, b"error: Permission denied", &nothing, false).unwrap();
    assert!(d.contains("file access was denied"), "{d}");
    // An ordinary build failure is left as a bare exit code.
    let none = diagnose_sandbox_failure(1, b"error[E0308]: mismatched types", &nothing, false);
    assert!(none.is_none(), "{none:?}");
}

#[test]
fn diagnose_landlock_enoent_as_undeclared() {
    // Landlock commonly surfaces an undeclared (relative) path as a plain
    // "No such file or directory", so verify still explains it.
    let err = b"cat: data.txt: No such file or directory";
    let d = diagnose_sandbox_failure(1, err, &Vec::new(), false).unwrap();
    assert!(d.contains("not found under the sandbox") && d.contains("declare"), "{d}");
}

#[test]
fn first_denied_path_picks_the_path() {
    assert_eq!(first_denied_path("cat: /etc/secret: Permission denied"), Some("/etc/secret".to_string()));
    assert_eq!(first_denied_path("open '/a/b': Operation not permitted"), Some("/a/b".to_string()));
    // No denial line → nothing.
    assert_eq!(first_denied_path("just some log output"), None);
}

// Dispatch.

fn hash(s: &str) -> ContentHash {
    ContentHash::of_bytes(s.as_bytes())
}

fn a_key(s: &str) -> CacheKey {
    CacheKey::new(hash(s))
}

/// `c` uses `b`, which uses `a`; `d` stands alone.
fn chain() -> Plan {
    Plan {
        ids: vec![TargetId::new("a"), TargetId::new("b"), TargetId::new("c"), TargetId::new("d")],
        deps: vec![vec![], vec![0], vec![1], vec![]],
        users: vec![vec![1], vec![2], vec![], vec![]],
    }
}

fn started(s: Step) -> usize {
    match s {
        Step::Start { at, .. } => at,
        other => panic!("{other:?}"),
    }
}

#[test]
fn a_target_starts_when_its_deps_are_done() {
    let mut d = Dispatcher::new(chain(), 1);
    assert_eq!(started(d.next()), 0);
    assert!(matches!(d.next(), Step::Wait));
    d.complete(0, a_key("ka"), Completion::Built { output_hash: hash("a") });
    assert_eq!(started(d.next()), 3);
    d.complete(3, a_key("kd"), Completion::Hit { output_hash: hash("d") });
    match d.next() {
        Step::Start { at, dep_hashes } => {
            assert_eq!(at, 1);
            assert_eq!(dep_hashes, vec![hash("a")]);
        },
        other => panic!("{other:?}"),
    }
    d.complete(1, a_key("kb"), Completion::Built { output_hash: hash("b") });
    assert_eq!(started(d.next()), 2);
    d.complete(2, a_key("kc"), Completion::Built { output_hash: hash("c") });
    assert!(matches!(d.next(), Step::Finished));
    assert!(d.ok());
    assert_eq!(d.counts(), TargetCounts { built: 3, cache_hit: 1, failed: 0, skipped: 0 });
    assert_eq!(d.cache_key(2), Some(a_key("kc")));
}

#[test]
fn a_failure_skips_what_uses_it_and_nothing_else() {
    let mut d = Dispatcher::new(chain(), 2);
    assert_eq!(started(d.next()), 0);
    assert_eq!(started(d.next()), 3);
    d.complete(0, a_key("ka"), Completion::Failed);
    d.complete(3, a_key("kd"), Completion::Built { output_hash: hash("d") });
    let mut skipped = Vec::new();
    loop {
        match d.next() {
            Step::Skip { at, .. } => skipped.push(at),
            Step::Finished => break,
            other => panic!("{other:?}"),
        }
    }
    skipped.sort();
    assert_eq!(skipped, vec![1, 2]);
    assert!(!d.ok());
    assert_eq!(d.counts(), TargetCounts { built: 1, cache_hit: 0, failed: 1, skipped: 2 });
    assert_eq!(d.failed_targets(), vec![TargetId::new("a")]);
    assert!(skip_reason(d.id(0)).contains('a'));
}

#[test]
fn what_becomes_ready_queues_in_user_order() {
    let plan = Plan {
        ids: vec![TargetId::new("a"), TargetId::new("b"), TargetId::new("c"), TargetId::new("d")],
        deps: vec![vec![], vec![], vec![0], vec![0]],
        users: vec![vec![3, 2], vec![], vec![], vec![]],
    };
    let mut d = Dispatcher::new(plan, 1);
    assert_eq!(started(d.next()), 0);
    d.complete(0, a_key("ka"), Completion::Built { output_hash: hash("a") });
    let mut order = Vec::new();
    while let Step::Start { at, .. } = d.next() {
        order.push(at);
        d.complete(at, a_key("k"), Completion::Built { output_hash: hash("o") });
    }
    assert_eq!(order, vec![1, 3, 2]);
}

#[test]
fn a_build_opens_first_and_closes_last() {
    let chosen = vec![TargetId::new("c"), TargetId::new("d")];
    let (mut b, first) = Build::open("b_0001", &chosen, chain(), 0);
    assert_eq!(
        first,
        Event::BuildStarted {
            id: "b_0001".to_string(),
            selection: strings(&["c", "d"]),
            target_ids: chain().ids,
            parallelism: 1,
        }
    );
    assert!(matches!(b.next(), BuildStep::Start { at: 0, .. }));
    assert!(matches!(b.next(), BuildStep::Wait));
    b.complete(0, a_key("ka"), Completion::Failed);
    assert!(matches!(b.next(), BuildStep::Start { at: 3, .. }));
    b.complete(3, a_key("kd"), Completion::Built { output_hash: hash("d") });
    for (id, bad) in [("b", "a"), ("c", "b")] {
        match b.next() {
            BuildStep::Report(e) => assert_eq!(e, skipped_event("b_0001", &TargetId::new(id), &TargetId::new(bad))),
            other => panic!("{other:?}"),
        }
    }
    assert!(matches!(b.next(), BuildStep::Finished));
    let counts = TargetCounts { built: 1, cache_hit: 0, failed: 1, skipped: 2 };
    assert_eq!(b.close(7), Event::BuildFinished { id: "b_0001".to_string(), ok: false, duration_ms: 7, counts });
    assert_eq!(b.dispatcher().failed_targets(), vec![TargetId::new("a")]);
    // A build of nothing is over at once, and went well.
    let (mut e, _) = Build::open("b_0002", &Vec::new(), Plan { ids: vec![], deps: vec![], users: vec![] }, 4);
    assert!(matches!(e.next(), BuildStep::Finished));
    assert!(matches!(e.close(0), Event::BuildFinished { ok: true, .. }));
}

// Keys.

fn built_in() -> BuiltIn {
    BuiltIn { target_triple: "t".to_string(), version: "1".to_string() }
}

#[test]
fn the_key_is_the_hash_of_its_parts() {
    let mut t = spec("a", &[], &["o"], &[]);
    t.command = "make".to_string();
    t.env = vec![("B".into(), "2".into()), ("A".into(), "1".into())];
    let files = vec![FileInputContribution { rel_path: "x".to_string(), content_hash: hash("x"), size: 1 }];
    let key = compute_cache_key(&t, &built_in(), &files, &Vec::new(), &vec![hash("dep")]);
    let mut bytes: Vec<u8> = b"v1\0cmd\0make\0cwd\0\0env\0A=1\0B=2\0GIANT_TARGET_TRIPLE=t\0GIANT_VERSION=1\0file_inputs\0x\0".to_vec();
    bytes.extend_from_slice(hash("x").as_bytes());
    bytes.extend_from_slice(b"\0structural_inputs\0dep_outputs\0");
    bytes.extend_from_slice(hash("dep").as_bytes());
    bytes.push(0);
    assert_eq!(key.as_content_hash(), ContentHash::of_bytes(&bytes));
}

#[test]
fn env_and_dep_order_do_not_matter_to_the_key() {
    let mut a = spec("a", &[], &["o"], &[]);
    let mut b = spec("a", &[], &["o"], &[]);
    a.env = vec![("X".into(), "1".into()), ("Y".into(), "2".into())];
    b.env = vec![("Y".into(), "2".into()), ("X".into(), "1".into())];
    let none = Vec::new();
    let one = compute_cache_key(&a, &built_in(), &none, &Vec::new(), &vec![hash("p"), hash("q")]);
    let two = compute_cache_key(&b, &built_in(), &none, &Vec::new(), &vec![hash("q"), hash("p")]);
    assert_eq!(one, two);
    let st = |f: &str| vec![StructuralContribution { files: strings(&["a"]), lines: vec![], scope: vec![], fingerprint: hash(f) }];
    let printed = compute_cache_key(&b, &built_in(), &none, &st("f"), &Vec::new());
    assert_eq!(printed, compute_cache_key(&b, &built_in(), &none, &st("f"), &Vec::new()));
    assert_ne!(printed, compute_cache_key(&b, &built_in(), &none, &st("g"), &Vec::new()));
    let other = compute_cache_key(&b, &built_in(), &none, &Vec::new(), &vec![hash("q"), hash("r")]);
    assert_ne!(one, other);
}

#[test]
fn every_part_counts_for_the_key() {
    let files = |content: &str| vec![FileInputContribution { rel_path: "x".to_string(), content_hash: hash(content), size: 1 }];
    let target = |command: &str, cwd: &str, value: &str| {
        let mut t = spec("a", &[], &["o"], &[]);
        t.command = command.to_string();
        t.cwd = WsRelPath::new(cwd).unwrap();
        t.env = vec![("A".into(), "1".into()), ("X".into(), value.into())];
        t
    };
    let key = |t: &TargetSpec, content: &str, dep: &str| {
        compute_cache_key(t, &built_in(), &files(content), &Vec::new(), &vec![hash(dep)])
    };
    let base = key(&target("make", "d", "1"), "x", "p");
    assert_eq!(base, key(&target("make", "d", "1"), "x", "p"));
    assert_ne!(base, key(&target("mak", "d", "1"), "x", "p"));
    assert_ne!(base, key(&target("make", "e", "1"), "x", "p"));
    assert_ne!(base, key(&target("make", "d", "2"), "x", "p"));
    assert_ne!(base, key(&target("make", "d", "1"), "y", "p"));
    assert_ne!(base, key(&target("make", "d", "1"), "x", "q"));
}

#[test]
fn globs_fall_into_three_kinds() {
    assert_eq!(glob_kind("src/main.go"), GlobKind::Literal);
    assert_eq!(glob_kind("src/*.go"), GlobKind::Shallow);
    assert_eq!(glob_kind("src/**/*.go"), GlobKind::Recursive);
    assert!(has_glob_metachars("a?") && has_glob_metachars("a[b]") && !has_glob_metachars("a/b"));
    let t = spec("a", &[], &[], &["x", "y/*"]);
    assert_eq!(file_globs(&t.inputs), strings(&["x", "y/*"]));
    assert!(structural_specs(&t.inputs).is_empty());
    let f = Input::Fingerprint {
        files: vec![GlobPattern::new("b").unwrap(), GlobPattern::new("a").unwrap()],
        lines: strings(&["import"]),
        scope: vec![WsRelPath::new("pkg").unwrap()],
    };
    let s = structural_specs(&vec![f]);
    assert_eq!(s.len(), 1);
    assert_eq!(s[0].scope, strings(&["pkg"]));
    // By files, then by lines: a shorter list and a shorter text come first.
    let f = |files: &[&str], lines: &[&str]| Input::Fingerprint {
        files: files.iter().map(|g| GlobPattern::new(g).unwrap()).collect(),
        lines: strings(lines),
        scope: Vec::new(),
    };
    let s = structural_specs(&vec![f(&["b"], &[]), f(&["a", "b"], &[]), f(&["ab"], &[]), f(&["a"], &["y"]), f(&["a"], &["x"])]);
    let order: Vec<(Vec<String>, Vec<String>)> = s.into_iter().map(|s| (s.files, s.lines)).collect();
    let one = |files: &[&str], lines: &[&str]| (strings(files), strings(lines));
    assert_eq!(order, vec![one(&["a"], &["x"]), one(&["a"], &["y"]), one(&["a", "b"], &[]), one(&["ab"], &[]), one(&["b"], &[])]);
}

#[test]
fn a_walk_selects_by_the_recursive_globs() {
    let files = strings(&["src/a.go", "src/x/b.go", "docs/c.md"]);
    assert_eq!(select_walked(&strings(&["src/**/*.go"]), &files), Ok(strings(&["src/a.go", "src/x/b.go"])));
    assert!(select_walked(&strings(&["src/**/[a"]), &files).is_err());
    assert_eq!(
        input_paths(&strings(&["z", "src/a.go"]), &strings(&["src/**/*.go"]), &files),
        Ok(strings(&["src/a.go", "src/x/b.go", "z"]))
    );
    assert_eq!(shallow_pattern("/ws", "src/*.go"), Ok("/ws/src/*.go".to_string()));
    assert!(walk_skips("/ws/.git", ".git", "/cache"));
    assert!(walk_skips("/ws/.giant", ".giant", "/cache"));
    assert!(!walk_skips("/ws/src", "src", "/cache"));
}

// Outputs.

fn output(path: &str, body: &str) -> OutputFile {
    OutputFile {
        rel_path: path.to_string(),
        content_hash: hash(body),
        size: body.len() as u64,
        executable: false,
        mode: "0644".to_string(),
    }
}

#[test]
fn the_order_of_outputs_does_not_matter_to_their_hash() {
    let a = compute_outputs_content_hash(&vec![output("a", "1"), output("b", "2")]);
    let b = compute_outputs_content_hash(&vec![output("b", "2"), output("a", "1")]);
    assert_eq!(a, b);
    assert_ne!(a, compute_outputs_content_hash(&vec![output("a", "1"), output("b", "3")]));
}

#[test]
fn an_entry_records_its_outputs() {
    let t = spec("//:a", &[], &["o"], &[]);
    let outs = vec![output("o", "body")];
    let e = ac_entry(&t, &a_key("k"), &outs, None, None, 12, "now".to_string());
    assert_eq!(e.target_id, "//:a");
    assert_eq!(e.cache_key, a_key("k").to_hex());
    assert_eq!(e.duration_ms, 12);
    assert_eq!(e.outputs_content_hash, compute_outputs_content_hash(&outs).to_hex());
    assert_eq!(e.outputs.len(), 1);
    assert_eq!(e.outputs[0].path, "o");
    assert_eq!(ContentHash::from_hex(&e.outputs[0].content_hash), Some(hash("body")));
}

#[test]
fn a_blob_that_rotted_is_noticed() {
    assert!(blob_matches(&hash("x"), b"x"));
    assert!(!blob_matches(&hash("x"), b"y"));
}

#[test]
fn output_globs_must_find_files() {
    let e = vec![("gen/b".to_string(), EntryKind::File), ("gen/a".to_string(), EntryKind::File), ("gen/d".to_string(), EntryKind::Dir)];
    assert_eq!(output_files("gen/*", &e), Ok(strings(&["gen/b", "gen/a"])));
    assert_eq!(output_files("gen/*", &Vec::new()), Err("output \"gen/*\" matched no files after the command ran".to_string()));
    let dirs = vec![("gen".to_string(), EntryKind::Dir)];
    assert_eq!(
        output_files("gen", &dirs),
        Err("output \"gen\" matched only directories; directory outputs are not yet supported - declare files or a recursive glob like \"gen/**/*\"".to_string())
    );
    assert_eq!(file_perms(0o100755), (true, "755".to_string()));
    assert_eq!(file_perms(0o100644), (false, "644".to_string()));
}

// Running.

#[test]
fn a_cache_is_asked_before_a_command_runs() {
    let mut t = spec("a", &[], &["o"], &[]);
    t.exists = Some("check".to_string());
    assert_eq!(lookups(&t, false), vec![Lookup::Local, Lookup::Remote, Lookup::Exists, Lookup::Run]);
    assert_eq!(lookups(&t, true).last(), Some(&Lookup::Run));
    assert!(!lookups(&t, true).contains(&Lookup::Local));
    t.cache = Some(false);
    assert!(!lookups(&t, false).contains(&Lookup::Local));
}

#[test]
fn the_first_result_ends_the_search() {
    let t = spec("a", &[], &["o"], &[]);
    let hit = || TargetResult::CacheHit { output_hash: hash("o") };
    let (mut walk, first) = LookupWalk::begin(&t, false);
    assert_eq!(first, Lookup::Local);
    assert!(matches!(walk.answered(None), LookupStep::Try(Lookup::Remote)));
    assert!(matches!(walk.answered(Some(hit())), LookupStep::Done(TargetResult::CacheHit { output_hash }) if output_hash == hash("o")));
    let (mut walk, _) = LookupWalk::begin(&t, false);
    walk.answered(None);
    assert!(matches!(walk.answered(None), LookupStep::Try(Lookup::Exists)));
    assert!(matches!(walk.answered(None), LookupStep::Try(Lookup::Run)));
    let failed = TargetResult::Failed { error: "exit code 1".to_string() };
    assert!(matches!(walk.answered(Some(failed)), LookupStep::Done(TargetResult::Failed { error }) if error == "exit code 1"));
    let (_, only) = LookupWalk::begin(&t, true);
    assert_eq!(only, Lookup::Run);
}

#[test]
fn results_become_events() {
    let id = TargetId::new("a");
    let failed = TargetResult::Failed { error: "boom".to_string() };
    match finished_event("b_0001", &id, &failed) {
        Event::TargetFinished { result, error, .. } => {
            assert_eq!(result, TargetResultKind::Failed);
            assert_eq!(error.as_deref(), Some("boom"));
        },
        other => panic!("{other:?}"),
    }
    match skipped_event("b_0001", &id, &TargetId::new("z")) {
        Event::TargetFinished { result, error, .. } => {
            assert_eq!(result, TargetResultKind::Skipped);
            assert!(error.unwrap().contains('z'));
        },
        other => panic!("{other:?}"),
    }
    assert_eq!(result_output_hash(&failed), None);
    assert!(matches!(external_hit(), TargetResult::ExternalCacheHit { .. }));
    let hit = TargetResult::CacheHit { output_hash: hash("o") };
    assert_eq!(result_output_hash(&hit), Some(hash("o")));
    assert_eq!(hit.kind(), TargetResultKind::CacheHit);
}

#[test]
fn failures_in_words() {
    let t = spec("a", &[], &["o"], &[]);
    let no = None;
    let exit = |c| run_failure(&RunEnd::Exited { success: false, code: c }, &t, &no, b"");
    assert_eq!(exit(Some(3)).as_deref(), Some("exit code 3"));
    assert_eq!(exit(Some(-1)).as_deref(), Some("exit code -1"));
    assert_eq!(run_failure(&RunEnd::Exited { success: true, code: Some(0) }, &t, &no, b""), None);
    assert!(run_failure(&RunEnd::Cancelled, &t, &no, b"").is_some());
    assert!(run_failure(&RunEnd::TimedOut, &t, &no, b"").is_some());
    let boxed = Some(strings(&["/ws"]));
    let said = run_failure(&RunEnd::Exited { success: false, code: Some(125) }, &t, &boxed, b"").unwrap();
    assert!(said.contains("could not enter the sandbox"), "{said}");
}

#[test]
fn the_environment_of_a_command() {
    let mut t = spec("//src/go:a", &[], &["o"], &[]);
    t.env = vec![("X".into(), "1".into())];
    let env = command_env(&a_key("k"), "/ws", &t, false);
    let get = |n: &str| env.iter().find(|(k, _)| k == n).map(|(_, v)| v.clone());
    assert_eq!(get("X").as_deref(), Some("1"));
    assert_eq!(get("GIANT_CACHE_KEY"), Some(a_key("k").to_hex()));
    assert_eq!(get("GIANT_WORKSPACE_ROOT").as_deref(), Some("/ws"));
}

#[test]
fn a_log_is_kept_up_to_its_cap() {
    let mut b = LogBuffer::new(true, 6);
    b.push_line("abc");
    b.push_line("def");
    let kept = b.into_bytes();
    assert!(kept.starts_with(b"abc\n"));
    let mut off = LogBuffer::new(false, 100);
    off.push_line("abc");
    assert!(off.into_bytes().is_empty());
    assert_eq!(replay_lines(b"a\nb\n"), strings(&["a", "b"]));
}

#[test]
fn long_lines_are_clipped() {
    assert_eq!(clip_line("short"), ("short".to_string(), false));
    let long = "x".repeat(9000);
    let (cut, was) = clip_line(&long);
    assert!(was);
    assert_eq!(cut, "x".repeat(8192));
    let full = "x".repeat(8192);
    assert_eq!(clip_line(&full), (full, false));
    // No character is cut in two.
    let wide = format!("{}\u{20ac}{}", "x".repeat(8190), "y".repeat(10));
    assert_eq!(clip_line(&wide), ("x".repeat(8190), true));
    let fits = format!("{}\u{20ac}y", "x".repeat(8189));
    assert_eq!(clip_line(&fits), (format!("{}\u{20ac}", "x".repeat(8189)), true));
}

#[test]
fn a_line_of_output_becomes_an_event() {
    let id = TargetId::new("//:a");
    assert_eq!(
        log_event("b_0001", &id, LogStream::Stderr, "warn"),
        Event::TargetLog { build: "b_0001".to_string(), id: id.clone(), stream: LogStream::Stderr, line: "warn".to_string(), truncated: false }
    );
    let long = "z".repeat(8193);
    assert_eq!(
        log_event("b_0001", &id, LogStream::Stdout, &long),
        Event::TargetLog { build: "b_0001".to_string(), id, stream: LogStream::Stdout, line: "z".repeat(8192), truncated: true }
    );
}

#[test]
fn a_stream_keeps_its_longest_run_of_lines_and_one_marker() {
    let mut b = LogBuffer::new(true, 8);
    for line in ["abc", "def", "g", "h"] {
        b.push_line(line);
    }
    assert_eq!(b.into_bytes(), b"abc\ndef\n[giant: log truncated at capture cap]\n".to_vec());
    let mut all = LogBuffer::new(true, 8);
    all.push_line("abc");
    all.push_line("def");
    assert_eq!(all.into_bytes(), b"abc\ndef\n".to_vec());
    let mut none = LogBuffer::new(true, 3);
    none.push_line("abc");
    none.push_line("a");
    assert_eq!(none.into_bytes(), b"[giant: log truncated at capture cap]\n".to_vec());
}

#[test]
fn what_is_stored_and_uploaded() {
    let mut t = spec("a", &[], &["o"], &[]);
    let log = LogCapture::default();
    assert!(stores_stream(&t, &log, &vec![1]));
    assert!(!stores_stream(&t, &log, &Vec::new()));
    assert!(uploads(&t, true) && !uploads(&t, false));
    t.remote_cache = false;
    assert!(!uploads(&t, true));
}
