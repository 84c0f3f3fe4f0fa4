use giant::graph::BuildGraph;
use giant::model::{Input, TargetId, TargetSpec, WireTarget};
use giant::paths::OutputPath;
use giant::pattern::GlobPattern;
use giant::selection::{
    affected_targets, levenshtein, resolve_patterns, PatternMatcher, SelectionError, SelectionOpts, TestMode,
};

fn strings(v: &[&str]) -> Vec<String> {
    v.iter().map(|s| s.to_string()).collect()
}

fn spec(id: &str, deps: &[&str], outputs: &[&str], inputs: &[&str]) -> TargetSpec {
    let mut t = TargetSpec::from(WireTarget {
        name: id.rsplit([':', '/']).next().unwrap_or(id).to_string(),
        inputs: inputs.iter().map(|g| Input::File { glob: GlobPattern::new(g).unwrap() }).collect(),
        outputs: Vec::new(),
        deps: strings(deps),
        command: "true".to_string(),
        cwd: None,
        env: Vec::new(),
        cache: Some(true),
        remote_cache: true,
        network: false,
        sandbox: true,
        exists: None,
        timeout_secs: None,
        test: false,
        tags: Vec::new(),
        label: None,
        scope: Vec::new(),
    });
    t.id = TargetId::new(id);
    t.outputs = outputs.iter().map(|o| OutputPath::new(o).unwrap()).collect();
    t
}

fn graph_with(specs: Vec<TargetSpec>) -> BuildGraph {
    let mut g = BuildGraph::new();
    for s in specs {
        g.add_target(s).unwrap();
    }
    g.build_edges_and_validate().unwrap();
    g
}

#[test]
fn no_changed_files_means_no_affected() {
    let g = graph_with(vec![spec("a", &[], &["a"], &["**/*.go"])]);
    let aff = affected_targets(&g, &Vec::new());
    assert!(aff.is_empty());
}

#[test]
fn direct_match_via_input_glob() {
    let g = graph_with(vec![spec("a", &[], &["a"], &["src/**/*.go"])]);
    let aff = affected_targets(&g, &strings(&["src/main.go"]));
    assert_eq!(aff, vec![TargetId::new("a")]);
}

#[test]
fn no_match_when_file_outside_glob() {
    let g = graph_with(vec![spec("a", &[], &["a"], &["src/**/*.go"])]);
    let aff = affected_targets(&g, &strings(&["README.md"]));
    assert!(aff.is_empty());
}

#[test]
fn transitive_downstream_included() {
    // a (input: src/*.go) → produces bin/a
    // b (input: bin/a) → depends on a via inference
    let g = graph_with(vec![
        spec("a", &[], &["bin/a"], &["src/**/*.go"]),
        spec("b", &[], &["bin/b"], &["bin/a"]),
    ]);
    let aff = affected_targets(&g, &strings(&["src/main.go"]));
    assert!(aff.contains(&TargetId::new("a")));
    assert!(aff.contains(&TargetId::new("b")));
}

#[test]
fn unrelated_targets_not_affected() {
    let g = graph_with(vec![
        spec("a", &[], &["bin/a"], &["src/a/**/*.go"]),
        spec("b", &[], &["bin/b"], &["src/b/**/*.go"]),
    ]);
    let aff = affected_targets(&g, &strings(&["src/a/main.go"]));
    assert_eq!(aff, vec![TargetId::new("a")]);
}

fn sample_graph() -> BuildGraph {
    graph_with(vec![
        spec("//go/bin:server", &[], &["s"], &[]),
        spec("//go/bin:client", &[], &["c"], &[]),
        spec("//go/lib:util", &[], &["u"], &[]),
        spec("//go/test:auth", &[], &["t"], &[]),
        spec("//docker:api", &[], &["d"], &[]),
    ])
}

fn ids(out: &[TargetId]) -> Vec<&str> {
    out.iter().map(|i| i.as_str()).collect()
}

#[test]
fn empty_patterns_returns_all_non_test_targets_sorted() {
    let g = sample_graph();
    let out = resolve_patterns(&g, &Vec::new(), TestMode::Exclude, &SelectionOpts::default()).unwrap();
    // None are test targets in the fixture, so all 5 show.
    assert_eq!(
        ids(&out),
        vec![
            "//docker:api",
            "//go/bin:client",
            "//go/bin:server",
            "//go/lib:util",
            "//go/test:auth",
        ]
    );
}

#[test]
fn empty_patterns_excludes_test_targets_when_requested() {
    let g = graph_with(vec![
        spec("//go/bin:server", &[], &["s"], &[]),
        TargetSpec {
            test: true,
            ..spec("//go/test:auth", &[], &["t"], &[])
        },
    ]);
    let out = resolve_patterns(&g, &Vec::new(), TestMode::Exclude, &SelectionOpts::default()).unwrap();
    assert_eq!(ids(&out), vec!["//go/bin:server"]);
}

#[test]
fn exact_label_matches() {
    let g = sample_graph();
    let out = resolve_patterns(
        &g,
        &vec!["//go/bin:server".into()],
        TestMode::Exclude,
        &SelectionOpts::default(),
    )
    .unwrap();
    assert_eq!(ids(&out), vec!["//go/bin:server"]);
}

#[test]
fn exact_label_typo_errors_and_suggests_closest() {
    let g = sample_graph();
    let err = resolve_patterns(
        &g,
        &vec!["//go/bin:srvr".into()],
        TestMode::Exclude,
        &SelectionOpts::default(),
    )
    .unwrap_err();
    match err {
        SelectionError::NoMatch { suggestion, .. } => {
            assert_eq!(suggestion.as_deref(), Some("//go/bin:server"));
        }
        other => panic!("expected NoMatch, got {other:?}"),
    }
}

#[test]
fn wild_miss_gets_no_suggestion() {
    let g = sample_graph();
    let err = resolve_patterns(
        &g,
        &vec!["//completely/different:thing".into()],
        TestMode::Exclude,
        &SelectionOpts::default(),
    )
    .unwrap_err();
    match err {
        SelectionError::NoMatch { suggestion, .. } => assert_eq!(suggestion, None),
        other => panic!("expected NoMatch, got {other:?}"),
    }
}

#[test]
fn package_pattern_does_not_cross_into_subpackages() {
    let g = sample_graph();
    // `//go:*` is the `go` package exactly - but every target lives in
    // a subpackage (go/bin, go/lib, go/test), so nothing matches.
    let out = resolve_patterns(
        &g,
        &vec!["//go:*".into()],
        TestMode::Exclude,
        &SelectionOpts::default(),
    )
    .unwrap();
    assert!(out.is_empty(), "got {:?}", ids(&out));
}

#[test]
fn package_star_matches_one_package() {
    let g = sample_graph();
    // `//go/bin:*` is every target in package go/bin.
    let out = resolve_patterns(
        &g,
        &vec!["//go/bin:*".into()],
        TestMode::Exclude,
        &SelectionOpts::default(),
    )
    .unwrap();
    assert_eq!(ids(&out), vec!["//go/bin:client", "//go/bin:server"]);
}

#[test]
fn recursive_crosses_package_boundaries() {
    let g = sample_graph();
    let out = resolve_patterns(
        &g,
        &vec!["//go/...".into()],
        TestMode::Exclude,
        &SelectionOpts::default(),
    )
    .unwrap();
    assert_eq!(
        ids(&out),
        vec![
            "//go/bin:client",
            "//go/bin:server",
            "//go/lib:util",
            "//go/test:auth"
        ]
    );
}

#[test]
fn glob_missing_everything_is_silent_empty() {
    // Glob with no matches - not an error (could happen legitimately
    // when no target with that prefix exists yet).
    let g = sample_graph();
    let out = resolve_patterns(
        &g,
        &vec!["//rust/...".into()],
        TestMode::Exclude,
        &SelectionOpts::default(),
    )
    .unwrap();
    assert!(out.is_empty());
}

#[test]
fn multiple_patterns_union() {
    let g = sample_graph();
    let out = resolve_patterns(
        &g,
        &vec!["//go/bin:server".into(), "//docker/...".into()],
        TestMode::Exclude,
        &SelectionOpts::default(),
    )
    .unwrap();
    assert_eq!(ids(&out), vec!["//docker:api", "//go/bin:server"]);
}

#[test]
fn dedupes_overlapping_patterns() {
    let g = sample_graph();
    let out = resolve_patterns(
        &g,
        &vec!["//go/...".into(), "//go/bin:server".into()],
        TestMode::Exclude,
        &SelectionOpts::default(),
    )
    .unwrap();
    // //go/bin:server appears once even though both patterns match it.
    assert_eq!(
        ids(&out),
        vec![
            "//go/bin:client",
            "//go/bin:server",
            "//go/lib:util",
            "//go/test:auth"
        ]
    );
}

#[test]
fn exclusion_removes_matches() {
    let g = sample_graph();
    let out = resolve_patterns(
        &g,
        &vec!["//go/...".into(), "!//go/test/...".into()],
        TestMode::Exclude,
        &SelectionOpts::default(),
    )
    .unwrap();
    assert_eq!(
        ids(&out),
        vec!["//go/bin:client", "//go/bin:server", "//go/lib:util"]
    );
}

#[test]
fn exclude_only_implies_match_all() {
    let g = sample_graph();
    let out = resolve_patterns(
        &g,
        &vec!["!//go/...".into()],
        TestMode::Exclude,
        &SelectionOpts::default(),
    )
    .unwrap();
    assert_eq!(ids(&out), vec!["//docker:api"]);
}

#[test]
fn exclude_doesnt_complain_when_nothing_excluded() {
    let g = sample_graph();
    let out = resolve_patterns(
        &g,
        &vec!["//docker/...".into(), "!//go/...".into()],
        TestMode::Exclude,
        &SelectionOpts::default(),
    )
    .unwrap();
    assert_eq!(ids(&out), vec!["//docker:api"]);
}

fn graph_with_test_targets() -> BuildGraph {
    graph_with(vec![
        spec("//go/bin:server", &[], &["s"], &[]),
        TargetSpec {
            test: true,
            ..spec("//go/test:auth", &[], &["a"], &[])
        },
        TargetSpec {
            test: true,
            ..spec("//go/test:store", &[], &["s2"], &[])
        },
    ])
}

#[test]
fn test_mode_only_filters_to_tests() {
    let g = graph_with_test_targets();
    let out = resolve_patterns(&g, &Vec::new(), TestMode::Only, &SelectionOpts::default()).unwrap();
    assert_eq!(ids(&out), vec!["//go/test:auth", "//go/test:store"]);
}

#[test]
fn test_mode_exclude_drops_tests() {
    let g = graph_with_test_targets();
    let out = resolve_patterns(&g, &Vec::new(), TestMode::Exclude, &SelectionOpts::default()).unwrap();
    assert_eq!(ids(&out), vec!["//go/bin:server"]);
}

#[test]
fn test_mode_include_returns_everything() {
    let g = graph_with_test_targets();
    let out = resolve_patterns(&g, &Vec::new(), TestMode::Include, &SelectionOpts::default()).unwrap();
    assert_eq!(
        ids(&out),
        vec!["//go/bin:server", "//go/test:auth", "//go/test:store"]
    );
}

#[test]
fn test_mode_only_rejects_non_test_exact_label() {
    // `giant test //go/bin:server` - server isn't a test, so a
    // literal-label miss errors. Catches "did you mean build?".
    let g = graph_with_test_targets();
    let err = resolve_patterns(
        &g,
        &vec!["//go/bin:server".into()],
        TestMode::Only,
        &SelectionOpts::default(),
    )
    .unwrap_err();
    assert!(matches!(err, SelectionError::NoMatch { .. }));
}

fn graph_with_tags() -> BuildGraph {
    let mk = strings;
    graph_with(vec![
        TargetSpec {
            tags: mk(&["release", "linux"]),
            ..spec("//go/bin:server", &[], &["s"], &[])
        },
        TargetSpec {
            tags: mk(&["release", "macos"]),
            ..spec("//go/bin:client", &[], &["c"], &[])
        },
        TargetSpec {
            tags: mk(&["dev"]),
            ..spec("//go/bin:devtools", &[], &["d"], &[])
        },
        TargetSpec {
            tags: mk(&["release", "flaky"]),
            ..spec("//docker:api", &[], &["a"], &[])
        },
    ])
}

#[test]
fn tag_filter_includes_only_matching() {
    let g = graph_with_tags();
    let opts = SelectionOpts {
        tags: vec!["release".into()],
        ..Default::default()
    };
    let out = resolve_patterns(&g, &Vec::new(), TestMode::Exclude, &opts).unwrap();
    assert_eq!(
        ids(&out),
        vec!["//docker:api", "//go/bin:client", "//go/bin:server"]
    );
}

#[test]
fn tag_filter_multiple_includes_are_union() {
    let g = graph_with_tags();
    let opts = SelectionOpts {
        tags: vec!["dev".into(), "macos".into()],
        ..Default::default()
    };
    let out = resolve_patterns(&g, &Vec::new(), TestMode::Exclude, &opts).unwrap();
    // dev → devtools; macos → client.
    assert_eq!(ids(&out), vec!["//go/bin:client", "//go/bin:devtools"]);
}

#[test]
fn no_tag_filter_excludes_matching() {
    let g = graph_with_tags();
    let opts = SelectionOpts {
        no_tags: vec!["flaky".into()],
        ..Default::default()
    };
    let out = resolve_patterns(&g, &Vec::new(), TestMode::Exclude, &opts).unwrap();
    assert_eq!(
        ids(&out),
        vec!["//go/bin:client", "//go/bin:devtools", "//go/bin:server"]
    );
}

#[test]
fn tag_and_no_tag_compose_as_and() {
    let g = graph_with_tags();
    let opts = SelectionOpts {
        tags: vec!["release".into()],
        no_tags: vec!["flaky".into()],
    };
    let out = resolve_patterns(&g, &Vec::new(), TestMode::Exclude, &opts).unwrap();
    assert_eq!(ids(&out), vec!["//go/bin:client", "//go/bin:server"]);
}

#[test]
fn tag_filter_applies_to_pattern_match_too() {
    let g = graph_with_tags();
    let opts = SelectionOpts {
        tags: vec!["release".into()],
        ..Default::default()
    };
    let out = resolve_patterns(&g, &vec!["//go/...".into()], TestMode::Exclude, &opts).unwrap();
    assert_eq!(ids(&out), vec!["//go/bin:client", "//go/bin:server"]);
}

#[test]
fn tag_filter_makes_literal_pattern_miss_an_error() {
    let g = graph_with_tags();
    let opts = SelectionOpts {
        tags: vec!["release".into()],
        ..Default::default()
    };
    let err = resolve_patterns(&g, &vec!["//go/bin:devtools".into()], TestMode::Exclude, &opts)
        .unwrap_err();
    assert!(matches!(err, SelectionError::NoMatch { .. }));
}

#[test]
fn selection_errors_in_words() {
    let g = sample_graph();
    let none = SelectionOpts::default();
    let e = resolve_patterns(&g, &strings(&["//go/bin:srvr"]), TestMode::Exclude, &none).unwrap_err();
    assert!(e.message().contains("//go/bin:server"), "{}", e.message());
    let bad = resolve_patterns(&g, &strings(&["//go/[a"]), TestMode::Exclude, &none).unwrap_err();
    assert!(matches!(bad, SelectionError::BadGlob { .. }), "{bad:?}");
}

#[test]
fn exclusion_wins_over_inclusion() {
    let g = sample_graph();
    let none = SelectionOpts::default();
    let both = strings(&["//go/bin:server", "!//go/bin:server"]);
    assert!(resolve_patterns(&g, &both, TestMode::Exclude, &none).unwrap().is_empty());
}

#[test]
fn everything_matches_every_label() {
    let all = PatternMatcher::compile("//...").unwrap();
    assert!(all.matches(&TargetId::new("//:x")));
    assert!(all.matches_str("//a/b:c"));
}

#[test]
fn edit_distance() {
    assert_eq!(levenshtein("kitten", "sitting"), 3);
    assert_eq!(levenshtein("sitting", "kitten"), 3);
    assert_eq!(levenshtein("same", "same"), 0);
    assert_eq!(levenshtein("", "abc"), 3);
}

#[test]
fn more_files_affect_no_fewer_targets() {
    let g = graph_with(vec![
        spec("a", &[], &["bin/a"], &["src/a/**/*.go"]),
        spec("b", &["a"], &["bin/b"], &[]),
        spec("c", &[], &["bin/c"], &["src/c/**/*.go"]),
    ]);
    let few = affected_targets(&g, &strings(&["src/a/x.go"]));
    let more = affected_targets(&g, &strings(&["src/a/x.go", "src/c/y.go"]));
    assert_eq!(few.len(), 2);
    assert_eq!(more.len(), 3);
    assert!(few.iter().all(|t| more.contains(t)));
}
