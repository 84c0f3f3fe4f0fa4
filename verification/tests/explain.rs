use giant::config::CacheConfig;
use giant::explain::{diff_dep_outputs, diff_env_map, diff_file_inputs, diff_scalar, diff_structural, print_breakdown, print_diff};
use giant::graph::BuildGraph;
use giant::key::{compute_cache_key_with_breakdown, BuiltIn, FileInputContribution, StructuralContribution};
use giant::model::{ContentHash, Input, TargetId, TargetSpec, WireTarget};
use giant::paths::{path_relative, sort_paths, OutputPath};
use giant::pattern::GlobPattern;
use giant::prep::{
    changed_files, choose_targets, effective_mode, eviction_target, last_failures_path, next_step, product, read_last_failures,
    resolve_cache_dir, wants_failures, write_last_failures, BuildStep, ChangedFiles, ChoiceError,
};
use giant::selection::{SelectionOpts, TestMode};
use giant::text::{lines, trim};

fn strings(v: &[&str]) -> Vec<String> {
    v.iter().map(|s| s.to_string()).collect()
}

fn spec(id: &str, deps: &[&str], outputs: &[&str], inputs: &[&str]) -> TargetSpec {
    let mut t = TargetSpec::from(WireTarget {
        name: id.rsplit([':', '/']).next().unwrap_or(id).to_string(),
        inputs: inputs.iter().map(|g| Input::File { glob: GlobPattern::new(g).unwrap() }).collect(),
        outputs: Vec::new(),
        deps: strings(deps),
        command: "true".to_string(),
        cwd: None,
        env: Vec::new(),
        cache: Some(true),
        remote_cache: true,
        network: false,
        sandbox: true,
        exists: None,
        timeout_secs: None,
        test: false,
        tags: Vec::new(),
        label: None,
        scope: Vec::new(),
    });
    t.id = TargetId::new(id);
    t.outputs = outputs.iter().map(|o| OutputPath::new(o).unwrap()).collect();
    t
}

fn built_in() -> BuiltIn {
    BuiltIn { target_triple: "t".to_string(), version: "1".to_string() }
}

fn hash(s: &str) -> ContentHash {
    ContentHash::of_bytes(s.as_bytes())
}

fn file(p: &str, body: &str) -> FileInputContribution {
    FileInputContribution { rel_path: p.to_string(), content_hash: hash(body), size: body.len() as u64 }
}

#[test]
fn a_breakdown_shows_what_feeds_the_key() {
    let mut t = spec("//:a", &[], &["o"], &[]);
    t.env = vec![("X".into(), "1".into())];
    let (key, bd) = compute_cache_key_with_breakdown(&t, &built_in(), vec![file("src/x", "body")], vec![], vec![]);
    let out = print_breakdown(&t.id, &key, &bd, &None, &None);
    assert_eq!(out[0], "target:      //:a");
    assert_eq!(out[1], format!("cache key:   {}", key.to_hex()));
    assert_eq!(out[2], "cache state: miss (next build will populate)");
    assert!(out.contains(&"cwd:         <workspace root>".to_string()));
    assert!(out.contains(&"  X=1".to_string()));
    assert!(out.contains(&"  GIANT_VERSION=1  (built-in)".to_string()));
    assert!(out.contains(&format!("  {:<60} {}  4 B", "src/x", &hash("body").to_hex()[..16])));
}

#[test]
fn a_key_does_not_differ_from_itself() {
    let files = || vec![file("a", "1"), file("b", "2")];
    assert_eq!(diff_file_inputs(&files(), &files()).len(), diff_file_inputs(&vec![], &vec![]).len());
    let changed = diff_file_inputs(&files(), &vec![file("a", "1"), file("b", "3"), file("c", "4")]);
    assert!(changed.len() > diff_file_inputs(&files(), &files()).len());
    assert!(changed.iter().any(|l| l.contains('b')) && changed.iter().any(|l| l.contains('c')));
    assert!(diff_scalar("cmd", "x", "y").len() > diff_scalar("cmd", "x", "x").len());
    let env = |v: &[(&str, &str)]| -> Vec<(String, String)> { v.iter().map(|(a, b)| (a.to_string(), b.to_string())).collect() };
    assert!(diff_env_map("env", &env(&[("A", "1")]), &env(&[("A", "2")])).iter().any(|l| l.contains('A')));
    let dep = |h: &str| vec![(TargetId::new("//:d"), hash(h))];
    assert!(diff_dep_outputs(&dep("1"), &dep("2")).iter().any(|l| l.contains("//:d")));
    let st = |f: &str| vec![StructuralContribution { files: strings(&["a", "b"]), lines: vec![], scope: vec![], fingerprint: hash(f) }];
    assert!(diff_structural(&st("x"), &st("x")).is_empty());
    assert_eq!(
        diff_structural(&st("x"), &vec![]),
        vec![
            "── structural inputs ──".to_string(),
            format!("  - [1] {}", hash("x").to_hex()),
            "      files: a, b".to_string(),
            "  + [1] <absent>".to_string(),
            String::new(),
        ]
    );
}

#[test]
fn two_targets_are_compared() {
    let a = spec("//:a", &[], &["o"], &[]);
    let mut b = spec("//:b", &[], &["p"], &[]);
    b.command = "other".to_string();
    let (ka, da) = compute_cache_key_with_breakdown(&a, &built_in(), vec![], vec![], vec![]);
    let (kb, db) = compute_cache_key_with_breakdown(&b, &built_in(), vec![], vec![], vec![]);
    let out = print_diff(&a.id, &ka, &da, &b.id, &kb, &db);
    assert!(out.iter().any(|l| l.contains("//:a")) && out.iter().any(|l| l.contains("//:b")));
    assert!(out.iter().any(|l| l.contains("other")));
}

// Preparing a build.

#[test]
fn the_cache_directory_is_made_absolute() {
    let home = Some("/home/u".to_string());
    let cwd = Ok("/here".to_string());
    assert_eq!(resolve_cache_dir("~/c", &home, &cwd), Ok("/home/u/c".to_string()));
    assert_eq!(resolve_cache_dir("~", &home, &cwd), Ok("/home/u".to_string()));
    assert_eq!(resolve_cache_dir("/abs", &None, &cwd), Ok("/abs".to_string()));
    assert_eq!(resolve_cache_dir("rel", &None, &cwd), Ok("/here/rel".to_string()));
    assert_eq!(resolve_cache_dir("~/c", &None, &cwd), Err("no home directory".to_string()));
    assert_eq!(resolve_cache_dir("rel", &None, &Err("gone".to_string())), Err("gone".to_string()));
    assert_eq!(last_failures_path("/ws", ".giant"), "/ws/.giant/last-failures.json");
    let failed = vec![TargetId::new("//:a"), TargetId::new("//p:\"b\"\n")];
    let bytes = write_last_failures(&failed).unwrap();
    assert_eq!(bytes, b"[\"//:a\",\"//p:\\\"b\\\"\\n\"]".to_vec());
    assert_eq!(read_last_failures(&bytes), failed);
    assert!(wants_failures(&strings(&["failed-last"])));
    assert!(!wants_failures(&strings(&["failed-last", "//:a"])) && !wants_failures(&Vec::new()));
    assert_eq!(write_last_failures(&Vec::new()), Some(b"[]".to_vec()));
    assert!(read_last_failures(b"[]").is_empty() && read_last_failures(b"[1]").is_empty() && read_last_failures(b"").is_empty());
}

#[test]
fn the_failures_of_the_last_build_can_be_chosen() {
    let mut g = BuildGraph::new();
    g.add_target(spec("//:a", &[], &["a"], &[])).unwrap();
    g.add_target(spec("//:b", &[], &["b"], &[])).unwrap();
    g.build_edges_and_validate().unwrap();
    let none = SelectionOpts::default();
    let last = vec![TargetId::new("//:b"), TargetId::new("//:gone")];
    let again = strings(&["failed-last"]);
    assert_eq!(choose_targets(&g, &again, &last, TestMode::Exclude, &none).unwrap(), vec![TargetId::new("//:b")]);
    let e = choose_targets(&g, &again, &Vec::new(), TestMode::Exclude, &none).unwrap_err();
    assert!(matches!(e, ChoiceError::NoFailures));
    assert_eq!(e.message(), "no recent failures recorded - run a build first, then `failed-last`");
    let e = choose_targets(&g, &strings(&["//:zzzzzzzzz"]), &last, TestMode::Exclude, &none).unwrap_err();
    assert!(matches!(e, ChoiceError::Selection(_)));
}

#[test]
fn listed_files_win_over_a_revision() {
    let base = Some("main".to_string());
    assert!(matches!(changed_files(&strings(&["/ws/a"]), &base, "/ws"), Ok(ChangedFiles::Listed(v)) if v == strings(&["a"])));
    assert!(matches!(changed_files(&Vec::new(), &base, "/ws"), Ok(ChangedFiles::Since(b)) if b == "main"));
    assert!(changed_files(&Vec::new(), &None, "/ws").unwrap_err().contains("--base"));
}

#[test]
fn what_follows_the_selection() {
    let some = vec![TargetId::new("a")];
    assert_eq!(next_step(true, &Vec::new(), false), BuildStep::NothingAffected);
    assert_eq!(next_step(false, &Vec::new(), true), BuildStep::NothingToBuild);
    assert_eq!(next_step(false, &some, true), BuildStep::Watch);
    assert_eq!(next_step(true, &some, false), BuildStep::Build);
    assert_eq!(effective_mode(TestMode::Exclude, true), TestMode::Include);
    assert_eq!(effective_mode(TestMode::Only, true), TestMode::Only);
    assert_eq!(effective_mode(TestMode::Exclude, false), TestMode::Exclude);
}

#[test]
fn a_full_cache_is_cut_back() {
    let mut c = CacheConfig::default();
    c.max_size_gb = Some(10);
    c.evict_when_above_pct = 90;
    c.evict_target_pct = 70;
    let gb = 1u64 << 30;
    assert_eq!(eviction_target(&c, 9 * gb), None);
    assert_eq!(eviction_target(&c, 9 * gb + 1), Some(7 * gb));
    c.max_size_gb = None;
    assert_eq!(eviction_target(&c, u64::MAX), None);
    c.max_size_gb = Some(0);
    assert_eq!(eviction_target(&c, u64::MAX), None);
    assert_eq!(product(u64::MAX, 2), u64::MAX);
    assert_eq!(product(6, 7), 42);
}

// Texts and paths.

#[test]
fn texts_are_cut_as_std_cuts_them() {
    for s in ["", "a", "a\n", "a\r\nb", "\n\n", " x \u{a0}y\u{2003}", "a\rb\n", "\r\n\r"] {
        assert_eq!(lines(s), s.lines().map(|l| l.to_string()).collect::<Vec<_>>(), "{s:?}");
        assert_eq!(trim(s), s.trim(), "{s:?}");
    }
}

#[test]
fn paths_sort_by_component() {
    let v = strings(&[
        "a-b", "a/b", "a", "/a", "b/../a", "a//b", "!e", "-b", "..", "../a", "./c", ".", "..x", "a/../x", "a/-y", "/", "/!", "",
        "a\u{0}", "a\u{0}/b", "\u{e9}",
    ]);
    let mut std_sorted: Vec<std::path::PathBuf> = v.iter().map(std::path::PathBuf::from).collect();
    std_sorted.sort();
    std_sorted.dedup();
    let ours: Vec<std::path::PathBuf> = sort_paths(&v).iter().map(std::path::PathBuf::from).collect();
    assert_eq!(ours, std_sorted);
    assert_eq!(path_relative("/ws/a/b", "/ws"), "a/b");
    assert_eq!(path_relative("/other/x", "/ws"), "/other/x");
}
