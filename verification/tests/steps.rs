use giant::events::LogStream;
use giant::executor::{LogCapture, RunEnd, TargetResult};
use giant::hits::{entry_streams, replayed_streams, HitStep, LocalHit, RemoteHit, RemoteStep};
use giant::model::{CacheKey, ContentHash, TargetId, TargetSpec, WireTarget};
use giant::outputs::{ac_entry, compute_outputs_content_hash, AcEntry, OutputFile};
use giant::paths::OutputPath;
use giant::run::{captured_paths, RunStep, TargetRun};

fn strings(v: &[&str]) -> Vec<String> {
    v.iter().map(|s| s.to_string()).collect()
}

fn hash(s: &str) -> ContentHash {
    ContentHash::of_bytes(s.as_bytes())
}

fn key() -> CacheKey {
    CacheKey::new(hash("key"))
}

fn target(cache: bool, outputs: &[&str]) -> TargetSpec {
    let mut t = TargetSpec::from(WireTarget {
        name: "a".to_string(),
        inputs: Vec::new(),
        outputs: Vec::new(),
        deps: Vec::new(),
        command: "make".to_string(),
        cwd: None,
        env: Vec::new(),
        cache: Some(cache),
        remote_cache: true,
        network: false,
        sandbox: true,
        exists: None,
        timeout_secs: Some(5),
        test: false,
        tags: Vec::new(),
        label: None,
        scope: Vec::new(),
    });
    t.id = TargetId::new("//:a");
    t.outputs = outputs.iter().map(|o| OutputPath::new(o).unwrap()).collect();
    t
}

fn output(path: &str, body: &str) -> OutputFile {
    OutputFile {
        rel_path: path.to_string(),
        content_hash: hash(body),
        size: body.len() as u64,
        executable: false,
        mode: "644".to_string(),
    }
}

fn log() -> LogCapture {
    LogCapture { capture: true, replay: true, cap_bytes: 100 }
}

fn exited(code: i32) -> RunEnd {
    RunEnd::Exited { success: code == 0, code: Some(code) }
}

fn failure(step: RunStep) -> String {
    match step {
        RunStep::End(TargetResult::Failed { error }) => error,
        other => panic!("{other:?}"),
    }
}

/// A run whose command has been started.
fn waiting(t: &TargetSpec, uploader: bool) -> TargetRun<'_> {
    let (mut run, step) = TargetRun::begin(t, key(), log(), uploader, false);
    match step {
        RunStep::Start { dirs } => assert_eq!(dirs, strings(&["bin", "gen"])),
        other => panic!("{other:?}"),
    }
    assert!(matches!(run.started(Ok(())), RunStep::Wait));
    run
}

#[test]
fn a_run_stores_its_streams_then_the_entry_then_uploads() {
    let t = target(true, &["bin/app", "gen/**/*.go", "top"]);
    let mut run = waiting(&t, true);
    assert!(matches!(run.ended(exited(0), b"out".to_vec(), b"err".to_vec()), RunStep::Capture));
    let step = run.captured(Ok(vec![output("bin/app", "body")]), 1, "t1".to_string());
    assert!(matches!(step, RunStep::Store { bytes } if bytes == b"out"));
    let step = run.stored(Ok(hash("out")), 2, "t2".to_string());
    assert!(matches!(step, RunStep::Store { bytes } if bytes == b"err"));
    assert!(run.entry().is_none());
    assert!(matches!(run.stored(Ok(hash("err")), 3, "t3".to_string()), RunStep::Write));
    let e = run.entry().unwrap();
    assert_eq!(e.target_id, "//:a");
    assert_eq!(e.cache_key, key().to_hex());
    assert_eq!(e.duration_ms, 3);
    assert_eq!(e.built_at, "t3");
    assert_eq!(e.stdout_blob, Some(hash("out").to_hex()));
    assert_eq!(e.stderr_blob, Some(hash("err").to_hex()));
    match run.written(Ok(()), 4) {
        RunStep::Upload { hashes } => assert_eq!(hashes, vec![hash("body"), hash("out"), hash("err")]),
        other => panic!("{other:?}"),
    }
    let read = vec![Some(b"body".to_vec()), None, Some(b"err".to_vec())];
    let (job, step) = run.uploading(read, 5);
    let job = job.unwrap();
    assert_eq!(job.cache_key, key());
    assert_eq!(job.ac_entry.built_at, "t3");
    assert_eq!(job.blobs, vec![(hash("body"), b"body".to_vec()), (hash("err"), b"err".to_vec())]);
    match step {
        RunStep::End(TargetResult::Built { duration_ms, outputs }) => {
            assert_eq!(duration_ms, 5);
            assert_eq!(outputs, vec![output("bin/app", "body")]);
        },
        other => panic!("{other:?}"),
    }
}

#[test]
fn nothing_is_kept_of_a_target_outside_the_cache() {
    let t = target(false, &["bin/app", "gen/*"]);
    let mut run = waiting(&t, true);
    assert!(matches!(run.ended(exited(0), b"out".to_vec(), b"err".to_vec()), RunStep::Capture));
    let step = run.captured(Ok(vec![output("bin/app", "body")]), 7, "now".to_string());
    assert!(matches!(step, RunStep::End(TargetResult::Built { duration_ms: 7, .. })));
    assert!(run.entry().is_none());
}

#[test]
fn a_silent_run_without_an_uploader_writes_its_entry_at_once() {
    let t = target(true, &["bin/app", "gen/*"]);
    let mut run = waiting(&t, false);
    run.ended(exited(0), Vec::new(), Vec::new());
    assert!(matches!(run.captured(Ok(Vec::new()), 1, "now".to_string()), RunStep::Write));
    assert_eq!(run.entry().unwrap().stdout_blob, None);
    assert!(matches!(run.written(Ok(()), 2), RunStep::End(TargetResult::Built { duration_ms: 2, .. })));
}

#[test]
fn each_way_to_fail_has_its_message() {
    let t = target(true, &["bin/app", "gen/*"]);
    let (mut run, step) = TargetRun::begin(&t, key(), log(), true, true);
    assert!(matches!(step, RunStep::Wrap));
    assert_eq!(failure(run.wrapped(Err("no".to_string()))), "sandbox setup failed: no");
    let (mut run, _) = TargetRun::begin(&t, key(), log(), true, true);
    assert!(matches!(run.wrapped(Ok(strings(&["/usr"]))), RunStep::Start { .. }));
    assert_eq!(failure(run.started(Err("no".to_string()))), "spawn failed: no");
    let mut run = waiting(&t, true);
    assert_eq!(failure(run.ended(RunEnd::TimedOut, Vec::new(), Vec::new())), "timed out after 5s");
    let mut run = waiting(&t, true);
    assert_eq!(failure(run.ended(RunEnd::Cancelled, Vec::new(), Vec::new())), "cancelled");
    let mut run = waiting(&t, true);
    assert_eq!(failure(run.ended(exited(3), Vec::new(), Vec::new())), "exit code 3");
    let mut run = waiting(&t, true);
    run.ended(exited(0), b"o".to_vec(), b"e".to_vec());
    assert_eq!(failure(run.captured(Err("no".to_string()), 1, String::new())), "capture outputs: no");
    let mut run = waiting(&t, true);
    run.ended(exited(0), b"o".to_vec(), b"e".to_vec());
    run.captured(Ok(Vec::new()), 1, String::new());
    assert_eq!(failure(run.stored(Err("no".to_string()), 1, String::new())), "write stdout blob: no");
    let mut run = waiting(&t, true);
    run.ended(exited(0), Vec::new(), b"e".to_vec());
    run.captured(Ok(Vec::new()), 1, String::new());
    assert_eq!(failure(run.stored(Err("no".to_string()), 1, String::new())), "write stderr blob: no");
    let mut run = waiting(&t, true);
    run.ended(exited(0), Vec::new(), Vec::new());
    run.captured(Ok(Vec::new()), 1, String::new());
    assert_eq!(failure(run.written(Err("no".to_string()), 1)), "cache write: no");
}

#[test]
fn a_sandboxed_failure_is_explained() {
    let t = target(true, &["bin/app", "gen/*"]);
    let (mut run, _) = TargetRun::begin(&t, key(), log(), true, true);
    run.wrapped(Ok(strings(&["/usr"])));
    run.started(Ok(()));
    let error = failure(run.ended(exited(1), Vec::new(), b"cat: /etc/shadow: Permission denied\n".to_vec()));
    assert!(error.starts_with("exit code 1; "), "{error}");
    // A target that is exempt runs as it is.
    let mut exempt = target(true, &["bin/app", "gen/*"]);
    exempt.sandbox = false;
    let (_, step) = TargetRun::begin(&exempt, key(), log(), true, true);
    assert!(matches!(step, RunStep::Start { .. }));
}

#[test]
fn captured_files_are_sorted_and_stay_inside() {
    let files = strings(&["/ws/b", "/ws/a/x", "/ws/b"]);
    let pairs = captured_paths(&files, "/ws").unwrap();
    assert_eq!(pairs, vec![("/ws/a/x".to_string(), "a/x".to_string()), ("/ws/b".to_string(), "b".to_string())]);
    assert_eq!(
        captured_paths(&strings(&["/ws/b", "/else"]), "/ws"),
        Err("captured output \"/else\" escaped the workspace".to_string())
    );
}

// Hits.

fn entry(bodies: &[&str]) -> AcEntry {
    let outs: Vec<OutputFile> = bodies.iter().map(|b| output(b, b)).collect();
    let out = Some(hash("out").to_hex());
    ac_entry(&target(true, &[]), &key(), &outs, out, None, 1, "now".to_string())
}

#[test]
fn a_local_hit_finds_every_blob_before_it_writes() {
    let (mut hit, step) = LocalHit::begin(entry(&["x", "y"]), key());
    assert!(matches!(step, HitStep::Probe { hash: h } if h == hash("x")));
    assert!(matches!(hit.probed(true), HitStep::Probe { hash: h } if h == hash("y")));
    assert!(matches!(hit.probed(true), HitStep::Look { at: 0, hash: h } if h == hash("x")));
    assert!(matches!(hit.looked(true), HitStep::Look { at: 1, hash: h } if h == hash("y")));
    assert!(matches!(hit.looked(false), HitStep::Restore { at: 1, hash: h } if h == hash("y")));
    let all = compute_outputs_content_hash(&vec![output("x", "x"), output("y", "y")]);
    assert!(matches!(hit.restored(true), HitStep::Hit(TargetResult::CacheHit { output_hash }) if output_hash == all));
}

#[test]
fn a_missing_blob_or_a_broken_name_is_a_miss() {
    let (mut hit, _) = LocalHit::begin(entry(&["x", "y"]), key());
    assert!(matches!(hit.probed(false), HitStep::Miss));
    let mut bad = entry(&["x", "y"]);
    bad.outputs[1].content_hash = "zz".to_string();
    let (mut hit, _) = LocalHit::begin(bad, key());
    assert!(matches!(hit.probed(true), HitStep::Miss));
    let (mut hit, _) = LocalHit::begin(entry(&["x"]), key());
    hit.probed(true);
    hit.looked(false);
    assert!(matches!(hit.restored(false), HitStep::Miss));
    let mut bad = entry(&[]);
    bad.outputs_content_hash = "zz".to_string();
    let (_, step) = LocalHit::begin(bad, key());
    match step {
        HitStep::Corrupt { path, detail } => {
            assert_eq!(path, format!("ac/{}", key().to_hex()));
            assert_eq!(detail, "outputs_content_hash field is not 32-byte hex");
        },
        other => panic!("{other:?}"),
    }
}

#[test]
fn a_remote_hit_keeps_the_entry_last() {
    let (mut hit, step) = RemoteHit::begin(entry(&["x", "y"]));
    assert!(matches!(step, RemoteStep::Fetch { hash: h } if h == hash("x")));
    assert!(matches!(hit.fetched(Some(b"x".to_vec())), RemoteStep::Keep { at: 0, blob } if blob == b"x"));
    assert!(matches!(hit.kept_output(true), RemoteStep::Fetch { hash: h } if h == hash("y")));
    assert!(matches!(hit.fetched(Some(b"y".to_vec())), RemoteStep::Keep { at: 1, .. }));
    assert!(matches!(hit.kept_output(true), RemoteStep::Probe { hash: h } if h == hash("out")));
    assert!(matches!(hit.probed(false), RemoteStep::FetchStream { hash: h } if h == hash("out")));
    assert!(matches!(hit.fetched_stream(Some(b"out".to_vec())), RemoteStep::KeepStream { blob } if blob == b"out"));
    assert!(matches!(hit.kept_stream(true), RemoteStep::KeepEntry));
    let all = compute_outputs_content_hash(&vec![output("x", "x"), output("y", "y")]);
    assert!(matches!(hit.kept_entry(true), RemoteStep::Hit(TargetResult::RemoteCacheHit { output_hash }) if output_hash == all));
}

#[test]
fn a_blob_that_is_not_what_its_hash_names_is_a_miss() {
    let (mut hit, _) = RemoteHit::begin(entry(&["x"]));
    assert!(matches!(hit.fetched(Some(b"y".to_vec())), RemoteStep::Miss));
    let (mut hit, _) = RemoteHit::begin(entry(&["x"]));
    assert!(matches!(hit.fetched(None), RemoteStep::Miss));
    // So is what could not be kept.
    let (mut hit, _) = RemoteHit::begin(entry(&["x"]));
    hit.fetched(Some(b"x".to_vec()));
    assert!(matches!(hit.kept_output(false), RemoteStep::Miss));
    let (mut hit, _) = RemoteHit::begin(entry(&[]));
    hit.probed(false);
    hit.fetched_stream(Some(b"out".to_vec()));
    assert!(matches!(hit.kept_stream(false), RemoteStep::Miss));
    let (mut hit, _) = RemoteHit::begin(entry(&[]));
    hit.probed(true);
    assert!(matches!(hit.kept_entry(false), RemoteStep::Miss));
    // A stream that is missing does not matter.
    let (mut hit, step) = RemoteHit::begin(entry(&[]));
    assert!(matches!(step, RemoteStep::Probe { .. }));
    hit.probed(false);
    assert!(matches!(hit.fetched_stream(Some(b"other".to_vec())), RemoteStep::KeepEntry));
    let (mut hit, _) = RemoteHit::begin(entry(&[]));
    assert!(matches!(hit.probed(true), RemoteStep::KeepEntry));
}

#[test]
fn streams_are_shown_again_where_that_is_asked_for() {
    let e = entry(&[]);
    assert_eq!(entry_streams(&e), vec![(LogStream::Stdout, hash("out"))]);
    assert_eq!(replayed_streams(&log(), &e), vec![(LogStream::Stdout, hash("out"))]);
    let quiet = LogCapture { replay: false, ..log() };
    assert!(replayed_streams(&quiet, &e).is_empty());
}
