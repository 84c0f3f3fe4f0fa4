use giant::graph::{BuildGraph, GraphError};
use giant::model::{Input, TargetId, TargetSpec, WireTarget};
use giant::paths::OutputPath;
use giant::pattern::GlobPattern;
use giant::plan::make_plan;

fn strings(v: &[&str]) -> Vec<String> {
    v.iter().map(|s| s.to_string()).collect()
}

fn spec(id: &str, deps: &[&str], outputs: &[&str], inputs: &[&str]) -> TargetSpec {
    let mut t = TargetSpec::from(WireTarget {
        name: id.rsplit([':', '/']).next().unwrap_or(id).to_string(),
        inputs: inputs.iter().map(|g| Input::File { glob: GlobPattern::new(g).unwrap() }).collect(),
        outputs: Vec::new(),
        deps: strings(deps),
        command: "true".to_string(),
        cwd: None,
        env: Vec::new(),
        cache: Some(true),
        remote_cache: true,
        network: false,
        sandbox: true,
        exists: None,
        timeout_secs: None,
        test: false,
        tags: Vec::new(),
        label: None,
        scope: Vec::new(),
    });
    t.id = TargetId::new(id);
    t.outputs = outputs.iter().map(|o| OutputPath::new(o).unwrap()).collect();
    t
}

fn build(specs: Vec<TargetSpec>) -> Result<BuildGraph, GraphError> {
    let mut g = BuildGraph::new();
    for s in specs {
        g.add_target(s)?;
    }
    g.build_edges_and_validate()?;
    Ok(g)
}

fn failure(specs: Vec<TargetSpec>) -> GraphError {
    match build(specs) {
        Ok(_) => panic!("expected an error"),
        Err(e) => e,
    }
}

fn built(specs: Vec<TargetSpec>) -> BuildGraph {
    match build(specs) {
        Ok(g) => g,
        Err(e) => panic!("{}", e.message()),
    }
}

#[test]
fn duplicate_id_rejected() {
    let mut g = BuildGraph::new();
    g.add_target(spec("a", &[], &["a"], &[])).unwrap();
    let err = g.add_target(spec("a", &[], &["a2"], &[])).unwrap_err();
    assert!(matches!(err, GraphError::DuplicateId(_)));
}

#[test]
fn unknown_dep_rejected() {
    let err = failure(vec![spec("a", &["missing"], &["a"], &[])]);
    assert!(matches!(err, GraphError::UnknownDep { .. }));
}

#[test]
fn topo_order_deps_first() {
    let g = built(vec![
        spec("a", &["b"], &["a"], &[]),
        spec("b", &["c"], &["b"], &[]),
        spec("c", &[], &["c"], &[]),
    ]);
    let order = g.topo_order().unwrap();
    let pos = |id: &str| order.iter().position(|t| t.as_str() == id).unwrap();
    assert!(pos("c") < pos("b"));
    assert!(pos("b") < pos("a"));
}

#[test]
fn cycle_detected() {
    let err = failure(vec![spec("a", &["b"], &["a"], &[]), spec("b", &["a"], &["b"], &[])]);
    assert!(matches!(err, GraphError::Cycle(_)));
}

#[test]
fn output_collision_rejected() {
    let err = failure(vec![
        spec("a", &[], &["bin/server"], &[]),
        spec("b", &[], &["bin/server"], &[]),
    ]);
    assert!(matches!(err, GraphError::OutputCollision { .. }));
}

#[test]
fn a_path_repeated_within_one_target_is_no_collision() {
    let g = built(vec![
        spec("a", &[], &["gen/x", "gen/x"], &["gen/*"]),
        spec("b", &[], &["bin/b"], &["gen/x", "gen/*"]),
    ]);
    assert!(g.direct_deps(&TargetId::new("a")).is_empty());
    assert_eq!(g.direct_deps(&TargetId::new("b")), vec![TargetId::new("a")]);
    assert_eq!(g.get(&TargetId::new("b")).unwrap().inferred_deps, vec![TargetId::new("a")]);
    let err = failure(vec![spec("a", &[], &["gen/x", "gen/x"], &[]), spec("b", &[], &["gen/x"], &[])]);
    match err {
        GraphError::OutputCollision { path, a, b } => {
            assert_eq!(path, "gen/x");
            assert_eq!((a.as_str(), b.as_str()), ("a", "b"));
        },
        other => panic!("{other:?}"),
    }
}

#[test]
fn output_based_inference_links_matching_input() {
    let g = built(vec![
        spec("a", &[], &["gen/api.pb.go"], &[]),
        spec("b", &[], &["bin/server"], &["gen/**/*.go"]),
    ]);
    let deps_of_b = g.direct_deps(&TargetId::new("b"));
    assert_eq!(deps_of_b, vec![TargetId::new("a")]);
    let b = g.get(&TargetId::new("b")).unwrap();
    assert!(b.deps.is_empty());
    assert!(b.inferred_deps.contains(&TargetId::new("a")));
}

#[test]
fn inference_doesnt_duplicate_existing_explicit_dep() {
    let g = built(vec![
        spec("a", &[], &["bin/foo"], &[]),
        spec("b", &["a"], &["bin/bar"], &["bin/foo"]),
    ]);
    let deps_of_b = g.direct_deps(&TargetId::new("b"));
    assert_eq!(deps_of_b, vec![TargetId::new("a")]);
}

#[test]
fn inference_skips_self_dependency() {
    let g = built(vec![spec("a", &[], &["a.txt"], &["*.txt"])]);
    let deps_of_a = g.direct_deps(&TargetId::new("a"));
    assert!(deps_of_a.is_empty());
}

#[test]
fn rebuild_edges_idempotent() {
    let mut g = BuildGraph::new();
    g.add_target(spec("a", &[], &["gen/x.go"], &[])).unwrap();
    g.add_target(spec("b", &[], &["bin/b"], &["gen/**/*.go"])).unwrap();
    g.build_edges_and_validate().unwrap();
    g.build_edges_and_validate().unwrap();
    let deps = g.direct_deps(&TargetId::new("b"));
    assert_eq!(deps.len(), 1);
}

#[test]
fn closure_walks_transitively() {
    let g = built(vec![
        spec("a", &["b"], &["a"], &[]),
        spec("b", &["c"], &["b"], &[]),
        spec("c", &[], &["c"], &[]),
        spec("unrelated", &[], &["x"], &[]),
    ]);
    let closure = g.closure_over_deps(&vec![TargetId::new("a")]);
    assert_eq!(closure.len(), 3);
    assert!(closure.contains(&TargetId::new("c")));
    assert!(!closure.contains(&TargetId::new("unrelated")));
}

#[test]
fn graph_errors_in_words() {
    let missing = failure(vec![spec("a", &["missing"], &["a"], &[])]);
    assert!(missing.message().contains("has dep on unknown target"), "{}", missing.message());
    let twice = failure(vec![spec("a", &[], &["a"], &[]), spec("a", &[], &["b"], &[])]);
    assert!(twice.message().contains('a'));
    let both = failure(vec![spec("a", &[], &["o"], &[]), spec("b", &[], &["o"], &[])]);
    assert!(both.message().contains('o'));
}

#[test]
fn downstream_is_the_other_way_round() {
    let g = built(vec![spec("a", &[], &["a"], &[]), spec("b", &["a"], &["b"], &[])]);
    assert_eq!(g.direct_downstream(&TargetId::new("a")), vec![TargetId::new("b")]);
    assert!(g.direct_downstream(&TargetId::new("b")).is_empty());
    assert_eq!(g.len(), 2);
    assert!(!g.is_empty());
}

#[test]
fn a_plan_holds_the_closure_deps_first() {
    let g = built(vec![
        spec("a", &["b"], &["a"], &[]),
        spec("b", &["c"], &["b"], &[]),
        spec("c", &[], &["c"], &[]),
        spec("d", &[], &["d"], &[]),
    ]);
    let plan = make_plan(&g, &vec![TargetId::new("a")]).unwrap();
    let ids: Vec<&str> = plan.ids.iter().map(|i| i.as_str()).collect();
    assert_eq!(ids, vec!["c", "b", "a"]);
    assert_eq!(plan.deps, vec![vec![], vec![0], vec![1]]);
    assert_eq!(plan.users, vec![vec![1], vec![2], vec![]]);
}

#[test]
fn tagged_targets_are_listed() {
    let mut t = spec("a", &[], &["a"], &[]);
    t.tags = strings(&["release"]);
    let g = built(vec![t, spec("b", &[], &["b"], &[])]);
    assert_eq!(g.ids_with_tag("release"), vec![TargetId::new("a")]);
    assert!(g.ids_with_tag("none").is_empty());
}
