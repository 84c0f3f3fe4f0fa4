use giant::discovery::{
    check_fragment, command_candidates, declared_inputs, discovery_cache_key, executable_inputs, fragment_from_sidecar,
    hash_file_entry, hash_listing, materialize_reads, merge_into, needs_dir_hash, needs_file_hash, sidecar_path, verify_reads,
    verify_reads_with_fsmonitor, Check, Computed, DiscoveryError, DiscoveryFragment, DiscoveryReads, DiscoverySidecar, Found,
    ReadDirEntry, ReadFileEntry, Reading, RecordedDir, RecordedFile, RecordedReads, Stat, VerifyOutcome,
};
use giant::fsmonitor::ChangeSet;
use giant::graph::{BuildGraph, GraphError};
use giant::key::BuiltIn;
use giant::model::{CacheKey, ContentHash, Input, TargetId, TargetSpec, WireTarget};
use giant::paths::{OutputPath, WsRelPath};
use giant::pattern::GlobPattern;

fn strings(v: &[&str]) -> Vec<String> {
    v.iter().map(|s| s.to_string()).collect()
}

fn include_spec(id: &str, command: &str) -> TargetSpec {
    let mut t = TargetSpec::from(WireTarget {
        name: id.to_string(),
        inputs: Vec::new(),
        outputs: Vec::new(),
        deps: Vec::new(),
        command: command.to_string(),
        cwd: None,
        env: Vec::new(),
        cache: None,
        remote_cache: true,
        network: false,
        sandbox: true,
        exists: None,
        timeout_secs: None,
        test: false,
        tags: Vec::new(),
        label: None,
        scope: Vec::new(),
    });
    t.id = TargetId::new(id);
    t
}

fn built_in() -> BuiltIn {
    BuiltIn { target_triple: "x86_64-linux".to_string(), version: "0.1.0".to_string() }
}

/// The files of a workspace at `/ws`, with what they hold.
fn found(files: &[(&str, &str)], path: &str) -> Option<Found> {
    let body = files.iter().find(|(p, _)| format!("/ws/{p}") == path)?.1;
    Some(Found { canonical: path.to_string(), hash: Some(ContentHash::of_bytes(body.as_bytes())) })
}

/// The key of a discovery target in a workspace at `/ws`.
fn key_in(spec: &TargetSpec, files: &[(&str, &str)], search: &[&str]) -> CacheKey {
    let words: Vec<Vec<Option<Found>>> =
        command_candidates(&spec.command, "/ws", spec.cwd.as_str(), &strings(search))
            .iter()
            .map(|c| c.iter().map(|p| found(files, p)).collect())
            .collect();
    let mut content = executable_inputs(&words, "/ws");
    let mut declared = Vec::new();
    for input in &spec.inputs {
        if let Input::File { glob } = input {
            for (p, _) in files {
                if glob.matches(p) {
                    declared.push(found(files, &format!("/ws/{p}")));
                }
            }
        }
    }
    content.extend(declared_inputs(&declared, "/ws"));
    discovery_cache_key(spec, &built_in(), &content)
}

fn key(spec: &TargetSpec) -> CacheKey {
    key_in(spec, &[], &[])
}

#[test]
fn discovery_key_is_deterministic() {
    let a = include_spec("d", "tools/d.sh > out.json");
    let b = include_spec("d", "tools/d.sh > out.json");
    assert_eq!(key(&a), key(&b));
}

#[test]
fn discovery_key_changes_with_command() {
    let a = include_spec("d", "tools/d.sh > out.json");
    let b = include_spec("d", "tools/d2.sh > out.json");
    assert_ne!(key(&a), key(&b));
}

#[test]
fn discovery_key_changes_with_cwd() {
    let mut a = include_spec("d", "tools/d.sh");
    let mut b = include_spec("d", "tools/d.sh");
    a.cwd = WsRelPath::new("pkg").unwrap();
    b.cwd = WsRelPath::new("cmd").unwrap();
    assert_ne!(key(&a), key(&b));
}

#[test]
fn discovery_key_changes_with_env_value() {
    let mut a = include_spec("d", "tools/d.sh");
    let mut b = include_spec("d", "tools/d.sh");
    a.env.push(("LANG".into(), "en_US.UTF-8".into()));
    b.env.push(("LANG".into(), "C".into()));
    assert_ne!(key(&a), key(&b));
}

#[test]
fn discovery_key_stable_under_env_declaration_order() {
    let mut a = include_spec("d", "tools/d.sh");
    let mut b = include_spec("d", "tools/d.sh");
    a.env.push(("A".into(), "1".into()));
    a.env.push(("B".into(), "2".into()));
    b.env.push(("B".into(), "2".into()));
    b.env.push(("A".into(), "1".into()));
    assert_eq!(key(&a), key(&b));
}

#[test]
fn discovery_key_changes_with_scope() {
    let mut a = include_spec("d", "tools/d.sh");
    let mut b = include_spec("d", "tools/d.sh");
    a.scope = vec![WsRelPath::new("pkg").unwrap()];
    b.scope = vec![WsRelPath::new("cmd").unwrap()];
    assert_ne!(key(&a), key(&b));
}

#[test]
fn discovery_key_stable_under_scope_order() {
    let mut a = include_spec("d", "tools/d.sh");
    let mut b = include_spec("d", "tools/d.sh");
    a.scope = vec![WsRelPath::new("pkg").unwrap(), WsRelPath::new("cmd").unwrap()];
    b.scope = vec![WsRelPath::new("cmd").unwrap(), WsRelPath::new("pkg").unwrap()];
    assert_eq!(key(&a), key(&b));
}

#[test]
fn discovery_key_empty_scope_vs_set_scope_differ() {
    let mut a = include_spec("d", "tools/d.sh");
    let b = include_spec("d", "tools/d.sh");
    a.scope = vec![WsRelPath::new("pkg").unwrap()];
    assert_ne!(key(&a), key(&b));
}

#[test]
fn discovery_key_changes_when_script_content_changes() {
    let spec = include_spec("d", "tools/d.sh");
    let before = key_in(&spec, &[("tools/d.sh", "#!/bin/sh\necho a\n")], &[]);
    let after = key_in(&spec, &[("tools/d.sh", "#!/bin/sh\necho b\n")], &[]);
    assert_ne!(before, after, "editing the discover script should invalidate the cache");
}

#[test]
fn discovery_key_hashes_script_argument_under_interpreter() {
    let spec = include_spec("d", "bash tools/d.sh --flag");
    let v1 = key_in(&spec, &[("tools/d.sh", "v1")], &[]);
    let v2 = key_in(&spec, &[("tools/d.sh", "v2")], &[]);
    assert_ne!(v1, v2);
}

#[test]
fn discovery_key_hashes_path_lookup_when_target_lives_in_workspace() {
    let spec = include_spec("d", "discover-go pkg/...");
    let v1 = key_in(&spec, &[("bin/discover-go", "v1")], &["/ws/bin"]);
    let v2 = key_in(&spec, &[("bin/discover-go", "v2")], &["/ws/bin"]);
    assert_ne!(v1, v2, "editing an in-workspace PATH-resolved discover binary should invalidate the cache");
}

#[test]
fn discovery_key_changes_when_declared_input_changes() {
    let mut spec = include_spec("d", "tools/discover.sh");
    spec.inputs = vec![Input::File { glob: GlobPattern::new("tools/lib/**/*.sh").unwrap() }];
    let v1 = key_in(&spec, &[("tools/lib/helper.sh", "v1")], &[]);
    let v2 = key_in(&spec, &[("tools/lib/helper.sh", "v2")], &[]);
    assert_ne!(v1, v2, "editing a declared `inputs:` file should invalidate the discovery cache");
}

#[test]
fn discovery_key_dedupes_argv_and_declared_overlap() {
    let argv_only = include_spec("d", "tools/d.sh");
    let mut both = include_spec("d", "tools/d.sh");
    both.inputs = vec![Input::File { glob: GlobPattern::new("tools/d.sh").unwrap() }];
    let v1 = [("tools/d.sh", "v1")];
    assert_eq!(
        key_in(&argv_only, &v1, &[]),
        key_in(&both, &v1, &[]),
        "the same file caught both ways must hash identically"
    );
    let v2 = [("tools/d.sh", "v2")];
    assert_ne!(key_in(&argv_only, &v1, &[]), key_in(&argv_only, &v2, &[]));
}

#[test]
fn discovery_key_ignores_system_path_lookups() {
    let a = include_spec("d", "ls pkg/");
    let outside = vec![vec![Some(Found {
        canonical: "/usr/bin/ls".to_string(),
        hash: Some(ContentHash::of_bytes(b"ls")),
    })]];
    let content = executable_inputs(&outside, "/ws");
    assert!(content.is_empty());
    assert_eq!(discovery_cache_key(&a, &built_in(), &content), key(&a));
}

#[test]
fn named_files_count_by_content_and_not_by_order() {
    let a = include_spec("d", "tools/d.sh");
    let h = |s: &str| ContentHash::of_bytes(s.as_bytes());
    let k = |v: &[(&str, &str)]| {
        let content: Vec<(String, ContentHash)> = v.iter().map(|(p, c)| (p.to_string(), h(c))).collect();
        discovery_cache_key(&a, &built_in(), &content)
    };
    let one = k(&[("a", "x"), ("b/c", "y")]);
    assert_eq!(one, k(&[("b/c", "y"), ("a", "x")]));
    assert_eq!(one, k(&[("a", "x"), ("b/c", "y"), ("a", "x")]));
    assert_ne!(one, k(&[("a", "x"), ("b/c", "z")]));
    assert_ne!(one, k(&[("a", "x")]));
}

#[test]
fn quoted_words_are_one_word() {
    let c = command_candidates("'my tool/d.sh' x", "/ws", "", &Vec::new());
    assert_eq!(c[0], strings(&["/ws/my tool/d.sh"]));
}

// What a discovery read.

struct Files(Vec<(String, String)>);

impl Files {
    fn of(v: &[(&str, &str)]) -> Files {
        Files(v.iter().map(|(p, c)| (p.to_string(), c.to_string())).collect())
    }

    fn text(&self, path: &str) -> Option<&str> {
        self.0.iter().find(|(p, _)| p == path).map(|(_, c)| c.as_str())
    }

    fn names(&self, dir: &str) -> Option<Vec<String>> {
        let start = format!("{dir}/");
        let v: Vec<String> = self.0.iter().filter_map(|(p, _)| p.strip_prefix(&start).map(|s| s.to_string())).collect();
        if v.is_empty() {
            None
        } else {
            Some(v)
        }
    }

    fn file(&self, e: &ReadFileEntry) -> Computed {
        match self.text(e.path.as_str()) {
            Some(c) => Computed::Hash(hash_file_entry(e, c.as_bytes()).unwrap()),
            None => Computed::NotFound,
        }
    }

    fn dir(&self, e: &ReadDirEntry) -> Computed {
        match self.names(e.path.as_str()) {
            Some(n) => Computed::Hash(hash_listing(&n, &e.filter).unwrap()),
            None => Computed::NotFound,
        }
    }

    fn record(&self, reads: &DiscoveryReads) -> RecordedReads {
        let reading = |c: Computed| Reading {
            stat: None,
            hash: match c {
                Computed::Hash(h) => Ok(h),
                _ => Err("not there".to_string()),
            },
        };
        let files: Vec<Reading> = reads.files.iter().map(|e| reading(self.file(e))).collect();
        let dirs: Vec<Reading> = reads.dirs.iter().map(|e| reading(self.dir(e))).collect();
        materialize_reads(reads, &files, &dirs).unwrap()
    }

    fn verify(&self, recorded: &RecordedReads) -> VerifyOutcome {
        let reads = recorded.to_discovery_reads();
        let files: Vec<Check> = reads.files.iter().map(|e| Check { stat: None, computed: self.file(e) }).collect();
        let dirs: Vec<Check> = reads.dirs.iter().map(|e| Check { stat: None, computed: self.dir(e) }).collect();
        verify_reads(recorded, &files, &dirs).unwrap()
    }
}

fn whole_file_entry(rel: &str) -> ReadFileEntry {
    ReadFileEntry { path: WsRelPath::new(rel).unwrap(), lines: vec![] }
}

fn excerpt_entry(rel: &str, lines: &[&str]) -> ReadFileEntry {
    ReadFileEntry { path: WsRelPath::new(rel).unwrap(), lines: strings(lines) }
}

fn dir_entry(rel: &str, filter: &[&str]) -> ReadDirEntry {
    ReadDirEntry { path: WsRelPath::new(rel).unwrap(), filter: strings(filter) }
}

#[test]
fn whole_file_verifier_match_then_mismatch() {
    let reads = DiscoveryReads { files: vec![whole_file_entry("go.mod")], dirs: vec![] };
    let before = Files::of(&[("go.mod", "module x\n")]);
    let recorded = before.record(&reads);
    assert!(matches!(before.verify(&recorded), VerifyOutcome::Match));
    match Files::of(&[("go.mod", "module y\n")]).verify(&recorded) {
        VerifyOutcome::Mismatch { reason } => assert!(reason.contains("go.mod")),
        VerifyOutcome::Match => panic!("expected mismatch"),
    }
}

#[test]
fn whole_file_verifier_reports_missing_file() {
    let reads = DiscoveryReads { files: vec![whole_file_entry("x.txt")], dirs: vec![] };
    let recorded = Files::of(&[("x.txt", "hi")]).record(&reads);
    match Files::of(&[]).verify(&recorded) {
        VerifyOutcome::Mismatch { reason } => assert!(reason.contains("missing")),
        _ => panic!(),
    }
}

#[test]
fn excerpt_verifier_ignores_non_matching_line_edits() {
    let reads = DiscoveryReads { files: vec![excerpt_entry("pkg/foo.go", &["package ", "import "])], dirs: vec![] };
    let recorded = Files::of(&[("pkg/foo.go", "package foo\nimport \"fmt\"\nfunc Hello() {}\n")]).record(&reads);
    // Function-body edit: package + import lines unchanged → still Match.
    let body = Files::of(&[("pkg/foo.go", "package foo\nimport \"fmt\"\nfunc Hello() { fmt.Println(\"hi\") }\n")]);
    assert!(matches!(body.verify(&recorded), VerifyOutcome::Match));
    // Adding an import: matching line set changes → Mismatch.
    let more = Files::of(&[("pkg/foo.go", "package foo\nimport \"fmt\"\nimport \"log\"\nfunc Hello() {}\n")]);
    assert!(matches!(more.verify(&recorded), VerifyOutcome::Mismatch { .. }));
}

#[test]
fn dir_verifier_whole_listing_invalidates_on_any_add() {
    let reads = DiscoveryReads { files: vec![], dirs: vec![dir_entry("pkg", &[])] };
    let recorded = Files::of(&[("pkg/a.go", "")]).record(&reads);
    let more = Files::of(&[("pkg/a.go", ""), ("pkg/README.md", "")]);
    assert!(matches!(more.verify(&recorded), VerifyOutcome::Mismatch { .. }));
}

#[test]
fn dir_verifier_filter_ignores_non_matching_additions() {
    let reads = DiscoveryReads { files: vec![], dirs: vec![dir_entry("pkg", &["*.go"])] };
    let recorded = Files::of(&[("pkg/a.go", ""), ("pkg/b.go", "")]).record(&reads);
    // Adding a README doesn't match the `*.go` filter → still Match.
    let readme = Files::of(&[("pkg/a.go", ""), ("pkg/b.go", ""), ("pkg/README.md", "")]);
    assert!(matches!(readme.verify(&recorded), VerifyOutcome::Match));
    // Adding a new .go file does match the filter → Mismatch.
    let third = Files::of(&[("pkg/a.go", ""), ("pkg/b.go", ""), ("pkg/README.md", ""), ("pkg/c.go", "")]);
    assert!(matches!(third.verify(&recorded), VerifyOutcome::Mismatch { .. }));
}

#[test]
fn dir_verifier_invalidates_on_removal() {
    let reads = DiscoveryReads { files: vec![], dirs: vec![dir_entry("pkg", &[])] };
    let recorded = Files::of(&[("pkg/a.go", ""), ("pkg/b.go", "")]).record(&reads);
    assert!(matches!(Files::of(&[("pkg/b.go", "")]).verify(&recorded), VerifyOutcome::Mismatch { .. }));
}

#[test]
fn dir_verifier_invalidates_on_missing_dir() {
    let reads = DiscoveryReads { files: vec![], dirs: vec![dir_entry("pkg", &[])] };
    let recorded = Files::of(&[("pkg/a.go", "")]).record(&reads);
    match Files::of(&[]).verify(&recorded) {
        VerifyOutcome::Mismatch { reason } => assert!(reason.contains("missing") || reason.contains("pkg")),
        _ => panic!(),
    }
}

#[test]
fn dir_listing_hash_order_independent() {
    let reads = DiscoveryReads { files: vec![], dirs: vec![dir_entry("d", &[])] };
    let r1 = Files::of(&[("d/a", ""), ("d/b", "")]).record(&reads);
    let r2 = Files::of(&[("d/b", ""), ("d/a", "")]).record(&reads);
    assert_eq!(r1.dirs[0].listing_hash, r2.dirs[0].listing_hash);
}

#[test]
fn a_recorded_stat_settles_a_file() {
    let f = RecordedFile {
        path: WsRelPath::new("a").unwrap(),
        lines: vec![],
        content_hash: ContentHash::of_bytes(b"x"),
        mtime_ns: Some(7),
        size: Some(1),
    };
    assert!(!needs_file_hash(&f, &Some(Stat { size: 1, mtime_ns: Some(7) }), &None));
    assert!(needs_file_hash(&f, &Some(Stat { size: 2, mtime_ns: Some(7) }), &None));
    assert!(needs_file_hash(&f, &Some(Stat { size: 1, mtime_ns: Some(8) }), &None));
    assert!(needs_file_hash(&f, &None, &None));
    // Where the monitor saw no change, nothing has to be read.
    assert!(!needs_file_hash(&f, &None, &Some(ChangeSet::Delta(strings(&["b"])))));
    assert!(needs_file_hash(&f, &None, &Some(ChangeSet::FreshInstance)));
    let d = RecordedDir {
        path: WsRelPath::new("d").unwrap(),
        filter: vec![],
        listing_hash: ContentHash::of_bytes(b"x"),
        mtime_ns: Some(7),
    };
    assert!(!needs_dir_hash(&d, &Some(Stat { size: 0, mtime_ns: Some(7) }), &None));
    assert!(needs_dir_hash(&d, &None, &Some(ChangeSet::Delta(strings(&["d/x"])))));
    assert!(!needs_dir_hash(&d, &None, &Some(ChangeSet::Delta(strings(&["e/x"])))));
}

#[test]
fn an_unchanged_workspace_verifies_without_reading() {
    let reads = DiscoveryReads { files: vec![whole_file_entry("a"), whole_file_entry("b")], dirs: vec![dir_entry("d", &[])] };
    let recorded = Files::of(&[("a", "1"), ("b", "2"), ("d/x", "")]).record(&reads);
    let not_read = || Check { stat: None, computed: Computed::NotNeeded };
    let quiet = Some(ChangeSet::Delta(Vec::new()));
    let r = verify_reads_with_fsmonitor(&recorded, &vec![not_read(), not_read()], &vec![not_read()], &quiet);
    assert_eq!(r, Ok(VerifyOutcome::Match));
}

#[test]
fn a_reading_that_fails_is_an_error() {
    let reads = DiscoveryReads { files: vec![whole_file_entry("a")], dirs: vec![] };
    let recorded = Files::of(&[("a", "1")]).record(&reads);
    let failed = vec![Check { stat: None, computed: Computed::Failed("no".to_string()) }];
    assert_eq!(verify_reads(&recorded, &failed, &Vec::new()), Err("no".to_string()));
    let bad = vec![Reading { stat: None, hash: Err("gone".to_string()) }];
    assert_eq!(materialize_reads(&reads, &bad, &Vec::new()).unwrap_err(), "gone");
}

// Sidecars and fragments.

fn sample_sidecar(key: CacheKey) -> DiscoverySidecar {
    DiscoverySidecar::new(
        key,
        vec![],
        vec![],
        RecordedReads {
            files: vec![RecordedFile {
                path: WsRelPath::new("go.mod").unwrap(),
                lines: vec![],
                content_hash: ContentHash::of_bytes(b"module x\n"),
                mtime_ns: None,
                size: None,
            }],
            dirs: vec![],
        },
    )
}

#[test]
fn sidecar_round_trip() {
    let key = CacheKey::new(ContentHash::of_bytes(b"key1"));
    let back = sample_sidecar(key).for_key(&key).unwrap();
    assert_eq!(back.cache_key, key);
    assert_eq!(back.reads.files.len(), 1);
    assert_eq!(back.reads.files[0].content_hash, ContentHash::of_bytes(b"module x\n"));
}

#[test]
fn sidecar_unknown_schema_returns_none() {
    let key = CacheKey::new(ContentHash::of_bytes(b"k"));
    let mut s = sample_sidecar(key);
    s.schema = 99;
    assert!(s.for_key(&key).is_none());
}

#[test]
fn sidecar_key_mismatch_returns_none() {
    let key_a = CacheKey::new(ContentHash::of_bytes(b"a"));
    let key_b = CacheKey::new(ContentHash::of_bytes(b"b"));
    assert!(sample_sidecar(key_a).for_key(&key_b).is_none());
}

#[test]
fn sidecar_path_carries_the_key() {
    let key = CacheKey::new(ContentHash::of_bytes(b"k"));
    let p = sidecar_path("/ws/.giant", &key);
    assert!(p.starts_with("/ws/.giant/") && p.ends_with(".json"), "{p}");
    assert!(p.contains(&key.to_hex()[..16]), "{p}");
}

#[test]
fn a_sidecar_gives_the_fragment_back() {
    let key = CacheKey::new(ContentHash::of_bytes(b"k"));
    let mut s = sample_sidecar(key);
    s.targets.push(include_spec("x", "true"));
    let frag = fragment_from_sidecar(s);
    assert_eq!(frag.schema_version, 1);
    assert_eq!(frag.targets.len(), 1);
    assert_eq!(frag.reads.unwrap().files[0].path.as_str(), "go.mod");
}

fn fragment(targets: Vec<TargetSpec>, include_targets: Vec<TargetSpec>) -> DiscoveryFragment {
    DiscoveryFragment { schema_version: 1, targets, include_targets, reads: None }
}

fn with_output(id: &str, out: &str) -> TargetSpec {
    let mut t = include_spec(id, "true");
    t.outputs = vec![OutputPath::new(out).unwrap()];
    t
}

#[test]
fn parse_rejects_unknown_schema() {
    let mut f = fragment(vec![], vec![]);
    f.schema_version = 99;
    let err = check_fragment("f.json", f).unwrap_err();
    assert!(matches!(err, DiscoveryError::UnsupportedSchema { found: 99, .. }));
    assert!(err.message().contains("99"));
    assert!(check_fragment("f.json", fragment(vec![], vec![])).is_ok());
}

#[test]
fn merge_adds_targets_to_graph() {
    let mut graph = BuildGraph::new();
    let new_includes = merge_into(&mut graph, fragment(vec![with_output("x", "x.out")], vec![])).unwrap();
    assert!(graph.get(&TargetId::new("x")).is_some());
    assert!(new_includes.is_empty());
}

#[test]
fn merge_returns_nested_include_ids() {
    let mut graph = BuildGraph::new();
    let wave2 = with_output("discover:wave2", ".giant/wave2.json");
    let new_includes = merge_into(&mut graph, fragment(vec![with_output("x", "x.out")], vec![wave2])).unwrap();
    assert_eq!(new_includes.len(), 1);
    assert_eq!(new_includes[0].as_str(), "discover:wave2");
    // Both the nested include AND the static target are in the graph now.
    assert!(graph.get(&TargetId::new("discover:wave2")).is_some());
    assert!(graph.get(&TargetId::new("x")).is_some());
}

#[test]
fn merge_refuses_a_target_twice() {
    let mut graph = BuildGraph::new();
    let twice = vec![with_output("x", "a"), with_output("x", "b")];
    let err = merge_into(&mut graph, fragment(twice, vec![])).unwrap_err();
    assert!(matches!(err, DiscoveryError::Graph(GraphError::DuplicateId(_))));
}
