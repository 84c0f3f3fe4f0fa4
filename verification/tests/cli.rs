use giant::clean::{clean_step, cleared, collect_stats, confirmed, print_summary, CleanStep};
use giant::cli::{
    about_line, capabilities, complete_target_ids, detect_porcelains, dispatch, find_on_path, is_executable,
    is_help_invocation, path_candidates, program_of, BuildArgs, GlobalFlags, LogsArgs, PathFile, SessionArgs, TestArgs,
    VerifyArgs,
};
use giant::config::SandboxConfig;
use giant::fmt::{format_duration, human_bytes};
use giant::git::{affected_files, diff_args, listed_paths, open_error, parse_z_separated, untracked_args, GitError, GitRun};
use giant::logs::{blob_hash, log_pieces, missing_blob, missing_entry, nothing_captured, parse_cache_key};
use giant::model::{CacheKey, ContentHash, TargetId};
use giant::outputs::AcEntry;
use giant::sandbox::{expand_env_patterns, resolve_sandbox, resolve_sb_path, sanitize, wrapped_command, Machine, SandboxPolicy};
use giant::selection::TestMode;
use giant::worktree::{add_failed, probe_args, prune_args, Worktree};
use std::path::Path;

fn strings(v: &[&str]) -> Vec<String> {
    v.iter().map(|s| s.to_string()).collect()
}

#[test]
fn is_executable_says_yes_for_mode_755() {
    assert!(is_executable(Some((true, 0o100755))));
}

#[test]
fn is_executable_says_no_for_mode_644() {
    assert!(!is_executable(Some((true, 0o100644))));
    assert!(!is_executable(Some((false, 0o040755))));
}

#[test]
fn is_executable_says_no_for_missing_file() {
    let meta = Path::new("/tmp/definitely-does-not-exist-12345").metadata().ok();
    assert!(!is_executable(meta.map(|m| (m.is_file(), 0o755))));
}

#[test]
fn sb_path_absolute_is_unchanged() {
    assert_eq!(resolve_sb_path("/nix/store", "/ws", &None), "/nix/store");
}

#[test]
fn sb_path_relative_resolves_against_workspace() {
    assert_eq!(resolve_sb_path(".devenv/state/go", "/ws/proj", &None), "/ws/proj/.devenv/state/go");
}

#[test]
fn sb_path_tilde_resolves_against_home() {
    assert_eq!(resolve_sb_path("~/.cache/go", "/ws", &Some("/home/u".to_string())), "/home/u/.cache/go");
    assert_eq!(resolve_sb_path("~/.cache/go", "/ws", &None), "~/.cache/go");
}

#[test]
fn format_duration_chooses_right_unit() {
    assert_eq!(format_duration(0), "0ms");
    assert_eq!(format_duration(7), "7ms");
    assert_eq!(format_duration(999), "999ms");
    assert_eq!(format_duration(1_000), "1.00s");
    assert_eq!(format_duration(1_240), "1.24s");
    assert_eq!(format_duration(59_999), "60.00s");
    assert_eq!(format_duration(60_000), "1.0m");
    assert_eq!(format_duration(192_000), "3.2m");
}

#[test]
fn durations_round_as_floating_point_does() {
    let mut ms: Vec<u64> = (1000..60_000).collect();
    ms.extend((60_000..4_000_000).step_by(997));
    ms.extend([63_000, 69_000, 75_000, 81_000, 1 << 40, (1 << 53) + 1, (1 << 60) + 12345, u64::MAX - 1, u64::MAX]);
    for m in ms {
        let expected = if m < 60_000 {
            format!("{:.2}s", m as f64 / 1000.0)
        } else {
            format!("{:.1}m", m as f64 / 60_000.0)
        };
        assert_eq!(format_duration(m), expected, "{m}");
    }
}

#[test]
fn sizes_round_as_floating_point_does() {
    let mut ns: Vec<u64> = (0..6000).collect();
    for base in [1u64 << 20, 1 << 30, 1 << 40, 1 << 53, 1 << 62] {
        ns.extend((0..2000).map(|k| base + k * 12_345));
        ns.push(base - 1);
    }
    ns.push(u64::MAX);
    for n in ns {
        let expected = if n >= 1 << 30 {
            format!("{:.1} GB", n as f64 / (1u64 << 30) as f64)
        } else if n >= 1 << 20 {
            format!("{:.1} MB", n as f64 / (1u64 << 20) as f64)
        } else if n >= 1 << 10 {
            format!("{:.1} KB", n as f64 / 1024.0)
        } else {
            format!("{n} B")
        };
        assert_eq!(human_bytes(n), expected, "{n}");
    }
}

// Help and other programs.

#[test]
fn help_is_asked_for_or_falls_out() {
    let asks = |v: &[&str]| is_help_invocation(&strings(v));
    assert!(asks(&[]));
    assert!(asks(&["--help"]) && asks(&["-h"]) && asks(&["help"]));
    assert!(asks(&["--config", "x.yaml"]));
    assert!(asks(&["--config=x.yaml"]));
    assert!(asks(&["--log", "warn", "--help"]));
    assert!(!asks(&["session"]));
    assert!(!asks(&["task", "--help"]));
    assert!(!asks(&["--config", "x", "build"]));
    assert!(asks(&["--", "build"]));
    assert!(asks(&["--config", "--", "build"]));
    assert!(asks(&["-q"]));
}

#[test]
fn the_about_line_is_the_first_that_describes() {
    assert_eq!(about_line("\n\nUsage: x\n  Runs tasks  \nmore\n").as_deref(), Some("Runs tasks"));
    assert_eq!(about_line("Usage: x\n"), None);
    assert_eq!(about_line(""), None);
}

fn file(name: &str, dir: &str, executable: bool) -> PathFile {
    PathFile { name: name.to_string(), path: format!("{dir}/{name}"), executable }
}

#[test]
fn the_first_executable_of_a_name_counts() {
    let files = vec![
        file("giant-tui", "/a", true),
        file("giant-task", "/a", false),
        file("giant-session", "/a", true),
        file("giant-", "/a", true),
        file("other", "/a", true),
        file("giant-task", "/b", true),
        file("giant-tui", "/b", true),
    ];
    let found = detect_porcelains(&files);
    assert_eq!(
        found,
        vec![
            ("task".to_string(), "/b/giant-task".to_string()),
            ("tui".to_string(), "/a/giant-tui".to_string()),
        ]
    );
}

#[test]
fn a_sibling_comes_before_the_path() {
    let c = path_candidates(&strings(&["/a", "/b"]), &program_of("task"));
    assert_eq!(c, strings(&["/a/giant-task", "/b/giant-task"]));
    assert_eq!(find_on_path(&c, &vec![false, true]).as_deref(), Some("/b/giant-task"));
    assert_eq!(find_on_path(&c, &vec![false, false]), None);
    let some = |s: &str| Some(s.to_string());
    assert_eq!(dispatch("task", some("/x/giant-task"), some("/b/giant-task")), Ok("/x/giant-task".to_string()));
    assert_eq!(dispatch("task", None, some("/b/giant-task")), Ok("/b/giant-task".to_string()));
    let e = dispatch("nope", None, None).unwrap_err();
    assert_eq!(
        e,
        "no such subcommand 'nope': not a built-in and no 'giant-nope' found beside giant or on PATH.\nhint: to run a task named 'nope', use `giant task nope`."
    );
}

#[test]
fn labels_complete_sorted_and_once() {
    let ids = strings(&["//:b", "//:a", "//x:c", "//:a"]);
    assert_eq!(complete_target_ids(&ids, "//:"), strings(&["//:a", "//:b"]));
    assert_eq!(complete_target_ids(&ids, "z"), Vec::<String>::new());
}

fn build_args() -> BuildArgs {
    BuildArgs {
        patterns: strings(&["//..."]),
        jobs: None,
        affected: false,
        base: None,
        file: Vec::new(),
        quiet: false,
        tags: Vec::new(),
        no_tags: Vec::new(),
        show_toolchains: false,
        watch: false,
        with_tests: false,
        quiet_ms: 100,
        max_delay_ms: 500,
    }
}

#[test]
fn verify_forces_the_sandbox_and_a_fresh_build() {
    let flags = GlobalFlags { config: Some("g.yaml".to_string()), fresh: false, sandbox: false };
    let v = VerifyArgs { build: build_args() }.request(&flags);
    assert!(v.flags.fresh && v.flags.sandbox);
    assert_eq!(v.flags.config.as_deref(), Some("g.yaml"));
    assert_eq!(v.mode, TestMode::Include);
    assert!(v.isolated);
    let t = TestArgs { build: build_args() }.request(&flags);
    assert!(!t.flags.fresh && !t.flags.sandbox);
    assert_eq!(t.mode, TestMode::Only);
    assert!(!t.isolated);
    assert_eq!(build_args().request(&flags).mode, TestMode::Exclude);
}

#[test]
fn a_session_speaks_one_format_and_not_to_a_terminal() {
    let args = |e: &str| SessionArgs { events: e.to_string() };
    assert_eq!(args("ndjson").refusal(false), None);
    assert!(args("ndjson").refusal(true).unwrap().contains("pipe it"));
    assert_eq!(args("xml").refusal(false).as_deref(), Some("unsupported --events format: xml"));
    assert_eq!(capabilities(), strings(&["query.status", "logs.get", "query.explain"]));
}

// Logs.

fn entry(out: Option<&str>, err: Option<&str>) -> AcEntry {
    AcEntry {
        schema: 1,
        target_id: "//:a".into(),
        cache_key: "k".into(),
        command: "c".into(),
        cwd: String::new(),
        outputs: vec![],
        outputs_content_hash: String::new(),
        stdout_blob: out.map(|s| s.to_string()),
        stderr_blob: err.map(|s| s.to_string()),
        exit_code: -2,
        duration_ms: 0,
        built_at: String::new(),
        built_by: None,
    }
}

fn logs_args(stdout_only: bool, stderr_only: bool, merged: bool) -> LogsArgs {
    LogsArgs { target: "//:a".to_string(), key: None, stdout_only, stderr_only, merged }
}

fn shown(a: &LogsArgs, e: &AcEntry) -> Vec<(String, bool)> {
    log_pieces(a, e).into_iter().map(|p| (p.hex, p.to_stderr)).collect()
}

#[test]
fn streams_go_where_they_came_from() {
    let e = entry(Some("o"), Some("e"));
    let pair = |h: &str, b: bool| (h.to_string(), b);
    assert_eq!(shown(&logs_args(false, false, false), &e), vec![pair("o", false), pair("e", true)]);
    assert_eq!(shown(&logs_args(false, false, true), &e), vec![pair("o", false), pair("e", false)]);
    assert_eq!(shown(&logs_args(true, false, false), &e), vec![pair("o", false)]);
    assert_eq!(shown(&logs_args(false, true, false), &e), vec![pair("e", true)]);
}

#[test]
fn log_complaints() {
    let key = CacheKey::new(ContentHash::of_bytes(b"k"));
    let id = TargetId::new("//:a");
    assert_eq!(parse_cache_key(&key.to_hex()), Ok(key));
    assert_eq!(parse_cache_key("a\"b").unwrap_err(), "--key must be 64 hex chars (32 bytes), got \"a\\\"b\"");
    assert_eq!(blob_hash("xy").unwrap_err(), "malformed cache-key hex in AC entry: xy");
    assert_eq!(blob_hash(&key.to_hex()), Ok(key.as_content_hash()));
    assert_eq!(missing_blob("ab"), "log blob ab missing from CAS (evicted?)");
    assert_eq!(
        missing_entry(&id, &key),
        format!("no cached AC entry for //:a at key {}\n(run the target first, or check capture_logs is on)", key.to_hex())
    );
    assert_eq!(nothing_captured(&id, &key, &entry(Some("o"), None)), None);
    assert_eq!(
        nothing_captured(&id, &key, &entry(None, None)),
        Some(format!(
            "no captured logs for //:a (cache_key={}, exit_code=-2). cache.capture_logs may have been off when this entry was written.",
            key.to_hex()
        ))
    );
}

// Clearing the cache.

#[test]
fn the_cache_is_counted_by_kind() {
    let f = |p: &str, n: u64| (p.to_string(), n);
    let s = collect_stats(&vec![f("ac/1", 10), f("cas/aa/1", 2000), f("structural/x", 1), f("log/y", 1), f("version", 12)]);
    assert_eq!((s.ac, s.cas, s.structural, s.log), (1, 1, 1, 1));
    assert_eq!((s.total_bytes, s.total_entries), (2024, 5));
    assert_eq!(
        print_summary("/c", &s),
        strings(&["Cache: /c", "  size:    2.0 KB", "  entries: 5 total", "    1 AC, 1 CAS, 1 structural, 1 log"])
    );
    let none = collect_stats(&Vec::new());
    assert_eq!(print_summary("/c", &none), strings(&["Cache: /c", "  empty."]));
    assert_eq!(cleared("/c", &s), "Cleared /c (2.0 KB).");
}

#[test]
fn nothing_is_deleted_unasked() {
    let full = collect_stats(&vec![("ac/1".to_string(), 1)]);
    let none = collect_stats(&Vec::new());
    assert_eq!(clean_step(true, &full, true, true), CleanStep::DryRun);
    assert_eq!(clean_step(false, &none, true, true), CleanStep::Nothing);
    assert_eq!(clean_step(false, &full, false, false), CleanStep::Refuse);
    assert_eq!(clean_step(false, &full, false, true), CleanStep::Ask);
    assert_eq!(clean_step(false, &full, true, false), CleanStep::Delete);
    assert!(confirmed(" Y \n") && confirmed("yes\n") && confirmed("YeS"));
    assert!(!confirmed("") && !confirmed("n") && !confirmed("yess"));
}

// Git.

#[test]
fn git_answers_are_read_and_merged() {
    assert_eq!(parse_z_separated(b"b\0a/x\0\0"), strings(&["b", "a/x"]));
    assert_eq!(parse_z_separated(b"bad\xff\0"), strings(&["bad\u{fffd}"]));
    let run = |ok, out: &[u8], err: &[u8]| GitRun::Exited { success: ok, stdout: out.to_vec(), stderr: err.to_vec() };
    assert_eq!(listed_paths("git diff", &run(true, b"x\0", b"")), Ok(strings(&["x"])));
    assert_eq!(
        listed_paths("git diff", &run(false, b"", b" bad ref \n")),
        Err(GitError::Other("git diff failed: bad ref".to_string()))
    );
    assert_eq!(
        listed_paths("git ls-files", &GitRun::NotStarted("no git".to_string())).unwrap_err().message(),
        "git operation failed: spawn git ls-files: no git"
    );
    assert_eq!(affected_files(strings(&["b", "a-x", "a/x"]), strings(&["a/x", "c"])), strings(&["a/x", "a-x", "b", "c"]));
    assert_eq!(diff_args("main"), strings(&["diff", "--name-only", "--no-renames", "--relative", "-z", "main"]));
    assert_eq!(untracked_args(), strings(&["ls-files", "--others", "--exclude-standard", "-z"]));
}

#[test]
fn no_repository_is_told_from_other_trouble() {
    assert_eq!(open_error("/w", "fatal: not a git repository"), GitError::NotARepo("/w".to_string()));
    assert_eq!(open_error("/w", "the path does not exist"), GitError::NotARepo("/w".to_string()));
    assert_eq!(open_error("/w", "permission denied"), GitError::Other("permission denied".to_string()));
    assert_eq!(GitError::NotARepo("/w".to_string()).message(), "not a git repository: /w");
}

#[test]
fn verifying_needs_a_repository() {
    let w = Worktree::plan("/ws", "/tmp", "b 1/x", true).unwrap();
    assert_eq!(w.path(), "/tmp/giant-worktrees/b_1_x");
    assert_eq!(w.repository(), "/ws");
    assert_eq!(w.add_args(), strings(&["worktree", "add", "--detach", "--quiet", "/tmp/giant-worktrees/b_1_x", "HEAD"]));
    assert_eq!(w.remove_args(), strings(&["worktree", "remove", "--force", "/tmp/giant-worktrees/b_1_x"]));
    assert!(Worktree::plan("/ws", "/tmp", "b", false).unwrap_err().contains("needs a git repository"));
    assert_eq!(probe_args(), strings(&["rev-parse", "--is-inside-work-tree"]));
    assert_eq!(prune_args(), strings(&["worktree", "prune"]));
    assert_eq!(add_failed(b" oops\n"), "git worktree add failed: oops");
}

// The sandbox.

fn machine(linux: bool, helper: Option<&str>) -> Machine {
    Machine {
        linux,
        helper: helper.map(|s| s.to_string()),
        home: Some("/home/u".to_string()),
        roots: vec![true, true, false, false, true, true],
        rw: vec![true; 7],
        ambient: strings(&["LC_ALL", "SECRET", "GIANT_X"]),
    }
}

#[test]
fn the_sandbox_is_never_silently_left_out() {
    let mut cfg = SandboxConfig::default();
    cfg.roots = strings(&["vendor/bin"]);
    cfg.rw = strings(&["~/.cache"]);
    assert_eq!(resolve_sandbox(false, &cfg, "/ws", &machine(false, None)).unwrap().is_none(), true);
    assert!(resolve_sandbox(true, &cfg, "/ws", &machine(false, Some("/h"))).unwrap_err().contains("Linux"));
    assert!(resolve_sandbox(true, &cfg, "/ws", &machine(true, None)).unwrap_err().contains("giant-sandbox"));
    let p = resolve_sandbox(true, &cfg, "/ws", &machine(true, Some("/h"))).unwrap().unwrap();
    assert_eq!(p.helper, "/h");
    assert_eq!(p.toolchain, strings(&["/usr", "/bin", "/etc", "/ws/vendor/bin"]));
    assert!(p.rw.contains(&"/home/u/.cache".to_string()) && p.rw.contains(&"/dev/null".to_string()));
    assert!(p.env.contains(&"LC_ALL".to_string()) && p.env.contains(&"GIANT_X".to_string()));
    assert!(!p.env.contains(&"SECRET".to_string()));
}

#[test]
fn env_patterns_expand_against_what_is_set() {
    let r = expand_env_patterns(&strings(&["NIX_*", "HOME"]), &strings(&["NIX_B", "NIX_A", "OTHER"]));
    assert_eq!(r, strings(&["HOME", "NIX_A", "NIX_B"]));
}

#[test]
fn sandbox_names_are_safe() {
    assert_eq!(sanitize("//src/go:a-b"), "__src_go_a_b");
    let p = SandboxPolicy { helper: "/h".to_string(), toolchain: vec![], rw: vec![], env: vec![] };
    let c = wrapped_command(&p, "/s.json", "make all");
    assert_eq!(c[0], "/h");
    assert_eq!(c.last().map(|s| s.as_str()), Some("make all"));
    assert!(c.contains(&"/s.json".to_string()));
}
