use giant::config::{
    dispatch_or_default, find_config_in_dir, find_config_upward, find_workspace_root, package_keys, resolve_dep_label,
    resolve_in_package, scan_config_files, CacheConfig, Config, ConfigError, DispatchConfig, PackageFile, RemoteConfig, Route,
    ScannedFile, StateConfig, UnknownRoute, WorkspaceConfig,
};
use giant::model::{Input, TargetSpec, WireTarget};
use giant::pattern::GlobPattern;
use serde_yaml_ng::Value;

fn strings(v: &[&str]) -> Vec<String> {
    v.iter().map(|s| s.to_string()).collect()
}

fn text(v: &Value, key: &str) -> Option<String> {
    v.get(key).and_then(|x| x.as_str()).map(|s| s.to_string())
}

fn list(v: &Value, key: &str) -> Vec<String> {
    match v.get(key).and_then(|x| x.as_sequence()) {
        Some(s) => s.iter().map(|x| x.as_str().unwrap().to_string()).collect(),
        None => Vec::new(),
    }
}

fn target(v: &Value) -> TargetSpec {
    TargetSpec::from(WireTarget {
        name: text(v, "name").unwrap(),
        inputs: list(v, "inputs").iter().map(|g| Input::File { glob: GlobPattern::new(g).unwrap() }).collect(),
        outputs: list(v, "outputs"),
        deps: list(v, "deps"),
        command: text(v, "command").unwrap(),
        cwd: text(v, "cwd"),
        env: Vec::new(),
        cache: v.get("cache").and_then(|x| x.as_bool()),
        remote_cache: true,
        network: false,
        sandbox: true,
        exists: text(v, "exists"),
        timeout_secs: None,
        test: v.get("test").and_then(|x| x.as_bool()).unwrap_or(false),
        tags: Vec::new(),
        label: None,
        scope: Vec::new(),
    })
}

fn targets(v: &Value) -> Vec<TargetSpec> {
    match v.get("targets").and_then(|x| x.as_sequence()) {
        Some(s) => s.iter().map(target).collect(),
        None => Vec::new(),
    }
}

fn dispatch(v: &Value) -> DispatchConfig {
    match v.get("dispatch").and_then(|d| d.get("unknown")) {
        None => DispatchConfig::default(),
        Some(Value::String(s)) => DispatchConfig { unknown: UnknownRoute::One(s.clone()) },
        Some(rules) => DispatchConfig {
            unknown: UnknownRoute::Rules(
                rules
                    .as_sequence()
                    .unwrap()
                    .iter()
                    .map(|r| Route { pattern: text(r, "match").unwrap(), to: text(r, "to").unwrap() })
                    .collect(),
            ),
        },
    }
}

fn parse(yaml: &str) -> Config {
    let v: Value = serde_yaml_ng::from_str(yaml).unwrap();
    Config {
        schema_version: v.get("schema_version").and_then(|x| x.as_u64()).unwrap_or(1) as u32,
        workspace: WorkspaceConfig { name: v.get("workspace").and_then(|w| text(w, "name")).unwrap_or_default() },
        targets: targets(&v),
        cache: CacheConfig::default(),
        state: StateConfig::default(),
        dispatch: dispatch(&v),
        remote: RemoteConfig::default(),
    }
}

fn load(yaml: &str) -> Result<Config, ConfigError> {
    parse(yaml).finish()
}

fn package(path: &str, dir: &str, yaml: &str) -> PackageFile {
    let v: Value = serde_yaml_ng::from_str(yaml).unwrap();
    PackageFile::read(path.to_string(), dir.to_string(), Ok(yaml.to_string()), Ok(targets(&v)))
}

#[test]
fn load_minimal_config() {
    let cfg = load("\nworkspace:\n  name: myproject\n").unwrap();
    assert_eq!(cfg.workspace.name, "myproject");
    assert_eq!(cfg.schema_version, 1);
    assert!(cfg.targets.is_empty());
}

#[test]
fn load_with_static_target() {
    let cfg = load(
        r#"
workspace:
  name: myproject
targets:
  - name: "build"
    inputs: ["src/**/*.rs", "Cargo.toml"]
    outputs: ["bin/app"]
    command: "cargo build --release"
"#,
    )
    .unwrap();
    assert_eq!(cfg.targets.len(), 1);
    assert_eq!(cfg.targets[0].id.as_str(), "//:build");
    assert_eq!(cfg.targets[0].inputs.len(), 2);
}

#[test]
fn reject_missing_workspace_name() {
    let err = load("\nworkspace: { name: \"\" }\n").unwrap_err();
    assert!(matches!(err, ConfigError::Validation(_)));
}

#[test]
fn reject_invalid_workspace_name() {
    let err = load("\nworkspace: { name: \"has spaces\" }\n").unwrap_err();
    let msg = err.message();
    assert!(msg.contains("invalid characters"), "got: {msg}");
}

#[test]
fn reject_duplicate_target_name() {
    let err = load(
        r#"
workspace: { name: p }
targets:
  - { name: "a", inputs: [], outputs: ["x"], command: "true" }
  - { name: "a", inputs: [], outputs: ["y"], command: "true" }
"#,
    )
    .unwrap_err();
    let msg = err.message();
    assert!(msg.contains("duplicate target"), "got: {msg}");
}

#[test]
fn reject_cacheable_without_outputs_or_exists() {
    let err = load(
        r#"
workspace: { name: p }
targets:
  - { name: "a", inputs: [], outputs: [], command: "true" }
"#,
    )
    .unwrap_err();
    let msg = err.message();
    assert!(msg.contains("cacheable but has no outputs"), "got: {msg}");
}

#[test]
fn accept_no_outputs_with_exists_check() {
    load(
        r#"
workspace: { name: p }
targets:
  - name: "img"
    inputs: ["Dockerfile"]
    outputs: []
    command: "docker push"
    exists: "docker manifest inspect"
"#,
    )
    .unwrap();
}

#[test]
fn accept_no_outputs_when_cache_disabled() {
    load(
        r#"
workspace: { name: p }
targets:
  - name: "lint"
    inputs: ["src/**/*.rs"]
    outputs: []
    cache: false
    command: "cargo clippy"
"#,
    )
    .unwrap();
}

#[test]
fn test_targets_default_uncached() {
    load(
        r#"
workspace: { name: p }
targets:
  - name: "test"
    inputs: ["src/**/*.rs"]
    outputs: []
    test: true
    command: "cargo test"
"#,
    )
    .unwrap();
}

#[test]
fn reject_unsupported_schema_version() {
    let err = load("\nschema_version: 999\nworkspace: { name: p }\n").unwrap_err();
    let msg = err.message();
    assert!(msg.contains("schema_version 999"), "got: {msg}");
}

#[test]
fn dispatch_default_routes_to_giant_task() {
    let d = DispatchConfig::default();
    assert_eq!(d.route("deploy"), Some("giant-task"));
    assert_eq!(d.route("anything-at-all"), Some("giant-task"));
}

#[test]
fn dispatch_string_form_routes_everything_there() {
    let cfg = parse("workspace: { name: p }\ndispatch:\n  unknown: \"giant-other\"\n");
    assert_eq!(cfg.dispatch.route("foo"), Some("giant-other"));
}

#[test]
fn dispatch_rules_first_match_wins_and_can_miss() {
    let cfg = parse(
        r#"
workspace: { name: p }
dispatch:
  unknown:
    - { match: "db:*", to: "giant-dbtool" }
    - { match: "deploy", to: "giant-deploy" }
"#,
    );
    assert_eq!(cfg.dispatch.route("db:migrate"), Some("giant-dbtool"));
    assert_eq!(cfg.dispatch.route("deploy"), Some("giant-deploy"));
    // No `*` rule, so an unmatched name falls through to None.
    assert_eq!(cfg.dispatch.route("test-thing"), None);
}

#[test]
fn load_dispatch_degrades_to_default_when_absent_or_malformed() {
    assert_eq!(dispatch_or_default(None).route("x"), Some("giant-task"));
    let read = DispatchConfig { unknown: UnknownRoute::One("giant-other".to_string()) };
    assert_eq!(dispatch_or_default(Some(read)).route("x"), Some("giant-other"));
}

#[test]
fn resolve_in_package_rules() {
    assert_eq!(resolve_in_package("", "x.go"), "x.go");
    assert_eq!(resolve_in_package("src/go", "x.go"), "src/go/x.go");
    assert_eq!(resolve_in_package("src/go", "sub/y"), "src/go/sub/y");
    assert_eq!(resolve_in_package("src/go", "//proto/a.go"), "proto/a.go");
    assert_eq!(resolve_in_package("src/go", "."), "src/go");
    assert_eq!(resolve_in_package("", "."), "");
}

#[test]
fn scan_merges_packages_with_path_derived_labels_and_paths() {
    let root = parse("workspace:\n  name: w\n");
    let pkg = package(
        "/w/src/lib/giant.yaml",
        "src/lib",
        "targets:\n  - name: build\n    inputs: [\"a.go\"]\n    outputs: [\"out\"]\n    command: \"true\"\n",
    );
    let cfg = root.scan(vec![pkg]).unwrap();
    let t = cfg.targets.iter().find(|t| t.id.as_str() == "//src/lib:build").expect("package label //src/lib:build");
    // Output + cwd resolved package-relative.
    assert_eq!(t.outputs[0].as_str(), "src/lib/out");
    assert_eq!(t.cwd.as_str(), "src/lib");
}

#[test]
fn scan_disambiguates_same_name_across_packages() {
    let root = parse("workspace:\n  name: w\ntargets:\n  - name: build\n    outputs: [\"out\"]\n    command: \"true\"\n");
    let pkg = package(
        "/w/pkg/giant.yaml",
        "pkg",
        "targets:\n  - name: build\n    outputs: [\"out\"]\n    command: \"true\"\n",
    );
    let cfg = root.scan(vec![pkg]).unwrap();
    let labels: Vec<&str> = cfg.targets.iter().map(|t| t.id.as_str()).collect();
    assert!(labels.contains(&"//:build"));
    assert!(labels.contains(&"//pkg:build"));
}

#[test]
fn finalize_resolves_rooted_output_and_cwd() {
    let root = parse("workspace:\n  name: w\n");
    let pkg = package(
        "/w/src/tool/giant.yaml",
        "src/tool",
        "targets:\n  - name: build\n    inputs: [\"m.txt\"]\n    outputs: [\"//bin/tool\"]\n    cwd: \"//\"\n    command: \"true\"\n",
    );
    let cfg = root.scan(vec![pkg]).unwrap();
    let t = cfg.targets.iter().find(|t| t.id.as_str() == "//src/tool:build").unwrap();
    // `//bin/tool` → workspace-root output; `//` cwd → workspace root.
    assert_eq!(t.outputs[0].as_str(), "bin/tool");
    assert_eq!(t.cwd.as_str(), "");
}

#[test]
fn scan_rejects_root_only_field_in_package_config() {
    let root = parse("workspace:\n  name: w\n");
    let pkg = package(
        "/w/pkg/giant.yaml",
        "pkg",
        "cache:\n  dir: ./c\ntargets:\n  - name: x\n    outputs: [\"o\"]\n    command: \"true\"\n",
    );
    let msg = root.scan(vec![pkg]).unwrap_err().message();
    assert!(msg.contains("cache") && msg.contains("workspace-root"), "got: {msg}");
}

#[test]
fn package_keys_are_read_from_the_text() {
    let yaml = "targets: []\ncache:\n  dir: c\n";
    let json = "{\"tasks\": {\"b\": 1}, \"cache\": null}";
    let list = |v: &[&str]| Ok(v.iter().map(|s| s.to_string()).collect::<Vec<String>>());
    assert_eq!(package_keys("/w/p/giant.yaml", yaml), list(&["cache", "targets"]));
    assert_eq!(package_keys("/w/p/giant.json", json), list(&["cache", "tasks"]));
    assert_eq!(package_keys("/w/p/giant.yml", "{}"), list(&[]));
    // YAML takes JSON, not the other way round; a name that is all extension has none.
    assert_eq!(package_keys("/w/p/giant.yaml", json), list(&["cache", "tasks"]));
    assert_eq!(package_keys("/w/p/.json", yaml), list(&["cache", "targets"]));
    assert!(matches!(package_keys("/w/p/giant.json", yaml), Err(ConfigError::Json(_))));
    assert!(matches!(package_keys("/w/p/giant.yaml", "a: [1"), Err(ConfigError::Yaml(_))));
    assert!(matches!(package_keys("/w/p/giant.yaml", "- a\n"), Err(ConfigError::Yaml(_))));
    let read = |raw: Result<String, ConfigError>| {
        PackageFile::read("/w/p/giant.yaml".to_string(), "p".to_string(), raw, Ok(Vec::new()))
    };
    let root = || parse("workspace:\n  name: w\n");
    let msg = root().scan(vec![read(Ok(yaml.to_string()))]).unwrap_err().message();
    assert_eq!(msg, "validation: /w/p/giant.yaml: 'cache:' is only valid in the workspace-root config, not a package config");
    assert!(root().scan(vec![read(Ok("targets: []\n".to_string()))]).is_ok());
    let gone = ConfigError::Io("gone".to_string());
    assert_eq!(root().scan(vec![read(Err(ConfigError::Io("gone".to_string())))]).unwrap_err(), gone);
}

#[test]
fn scan_reports_the_first_package_that_fails() {
    let one = "targets:\n  - name: \"\"\n    outputs: [\"o\"]\n    command: \"true\"\n";
    let root = parse("workspace:\n  name: w\n");
    let broken = PackageFile {
        path: "/w/b/giant.yaml".to_string(),
        dir: "b".to_string(),
        keys: Err(ConfigError::Yaml("bad".to_string())),
        targets: Err(ConfigError::Yaml("bad".to_string())),
    };
    let e = root.scan(vec![package("/w/a/giant.yaml", "a", one), broken]).unwrap_err();
    assert_eq!(e.message(), "validation: /w/a/giant.yaml: validation: target has empty name");
    let broken = PackageFile {
        path: "/w/b/giant.yaml".to_string(),
        dir: "b".to_string(),
        keys: Err(ConfigError::Yaml("bad".to_string())),
        targets: Ok(Vec::new()),
    };
    let e = parse("workspace:\n  name: w\n").scan(vec![broken]).unwrap_err();
    assert_eq!(e, ConfigError::Yaml("bad".to_string()));
}

#[test]
fn scan_rejects_a_label_that_occurs_twice() {
    let pkg = || package("/w/p/giant.yaml", "p", "targets:\n  - name: x\n    outputs: [\"o\"]\n    command: \"true\"\n");
    let e = parse("workspace:\n  name: w\n").scan(vec![pkg(), pkg()]).unwrap_err();
    assert_eq!(e.message(), "validation: duplicate target label '//p:x'");
}

#[test]
fn outputs_may_not_leave_the_workspace() {
    let e = load("workspace: { name: p }\ntargets:\n  - { name: a, outputs: [\"../x\"], command: \"true\" }\n").unwrap_err();
    assert!(e.message().starts_with("validation: target 'a': invalid output '../x': "), "{}", e.message());
}

#[test]
fn deps_get_the_label_of_their_package() {
    assert_eq!(resolve_dep_label("src/go", ":lib").as_str(), "//src/go:lib");
    assert_eq!(resolve_dep_label("src/go", "//other:x").as_str(), "//other:x");
}

#[test]
fn config_is_found_upward() {
    let dirs = strings(&["/a/b", "/a", "/"]);
    let none = vec![false, false, false];
    let found = find_config_upward(&dirs, &vec![none.clone(), vec![false, true, true], none.clone()]);
    assert_eq!(found.as_deref(), Some("/a/giant.yml"));
    assert_eq!(find_config_upward(&dirs, &vec![none.clone(), none.clone(), none.clone()]), None);
    assert_eq!(find_config_in_dir("/x", &vec![false, false, true]).as_deref(), Some("/x/giant.json"));
}

#[test]
fn the_root_is_the_nearest_that_declares_a_workspace() {
    let dirs = strings(&["/a/b", "/a", "/"]);
    let names = vec![Some(String::new()), Some("w".to_string()), Some("outer".to_string())];
    assert_eq!(find_workspace_root(&dirs, &names), Ok("/a".to_string()));
    assert_eq!(find_workspace_root(&dirs, &vec![None, None, None]), Err(ConfigError::NotFound));
    assert_eq!(ConfigError::NotFound.message(), "config not found");
    assert_eq!(ConfigError::Io("e".to_string()).message(), "failed to read config: e");
    assert_eq!(ConfigError::Json("e".to_string()).message(), "failed to parse JSON: e");
}

#[test]
fn package_files_leave_out_the_root() {
    let file = |p: &str, n: &str| ScannedFile { path: p.to_string(), name: Some(n.to_string()), is_file: true };
    let files = vec![
        file("/w/giant.yaml", "giant.yaml"),
        file("/w/a/giant.json", "giant.json"),
        file("/w/a/readme.md", "readme.md"),
        ScannedFile { path: "/w/b/giant.yaml".to_string(), name: Some("giant.yaml".to_string()), is_file: false },
    ];
    assert_eq!(scan_config_files(&files, "/w/giant.yaml"), strings(&["/w/a/giant.json"]));
}
