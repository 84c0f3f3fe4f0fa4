use giant::fsmonitor::{choose_backend, parse_response, token_path, Backend, ChangeSet, FsmonitorClient};

fn strings(v: &[&str]) -> Vec<String> {
    v.iter().map(|s| s.to_string()).collect()
}

#[test]
fn parse_empty_response_is_delta_empty() {
    // Empty input produces an empty token + no paths → Delta(empty).
    let mut tok = None;
    assert!(matches!(parse_response(b"", &mut tok), ChangeSet::Delta(s) if s.is_empty()));
    assert!(tok.is_some());
}

#[test]
fn parse_token_only_means_nothing_changed() {
    let mut tok = None;
    let r = parse_response(b"abc123\0", &mut tok);
    assert!(matches!(r, ChangeSet::Delta(s) if s.is_empty()));
    assert_eq!(tok.as_deref(), Some("abc123"));
}

#[test]
fn parse_token_with_paths() {
    let mut tok = None;
    let r = parse_response(b"tok\0src/foo.go\0Cargo.toml\0", &mut tok);
    match r {
        ChangeSet::Delta(s) => {
            assert!(s.contains(&"src/foo.go".to_string()));
            assert!(s.contains(&"Cargo.toml".to_string()));
            assert_eq!(s.len(), 2);
        },
        _ => panic!(),
    }
}

#[test]
fn parse_fresh_instance_marker() {
    let mut tok = None;
    let r = parse_response(b"tok\0/\0", &mut tok);
    assert!(matches!(r, ChangeSet::FreshInstance));
}

#[test]
fn parse_invalid_utf8_in_path_degrades_to_fresh() {
    let mut tok = None;
    let r = parse_response(b"tok\0bad\xff\xff\0", &mut tok);
    assert!(matches!(r, ChangeSet::FreshInstance));
}

#[test]
fn changeset_file_matching() {
    let cs = ChangeSet::Delta(strings(&["src/a.go"]));
    assert!(cs.file_might_have_changed("src/a.go"));
    assert!(!cs.file_might_have_changed("src/b.go"));
}

#[test]
fn changeset_dir_prefix_match() {
    let cs = ChangeSet::Delta(strings(&["src/pkg/a.go"]));
    assert!(cs.dir_might_have_changed("src/pkg"));
    assert!(!cs.dir_might_have_changed("src/other"));
}

#[test]
fn a_change_reaches_every_directory_above() {
    let cs = ChangeSet::Delta(strings(&["a/b/c.go"]));
    assert!(cs.dir_might_have_changed("a/b") && cs.dir_might_have_changed("a"));
    assert!(!cs.dir_might_have_changed("a/bc"));
    assert!(!cs.is_empty());
    assert!(ChangeSet::Delta(Vec::new()).is_empty());
    assert!(!ChangeSet::FreshInstance.is_empty());
    assert!(ChangeSet::FreshInstance.file_might_have_changed("anything"));
}

#[test]
fn the_setting_chooses_the_backend() {
    assert!(choose_backend(&None).is_none());
    assert!(matches!(choose_backend(&Some("true".to_string())), Some(Backend::BuiltinDaemon)));
    assert!(choose_backend(&Some("false".to_string())).is_none());
    assert!(matches!(choose_backend(&Some("/hook".to_string())), Some(Backend::HookScript(p)) if p == "/hook"));
}

#[test]
fn a_new_token_is_kept() {
    let mut c = FsmonitorClient::open("/s".to_string(), Backend::HookScript("/hook".to_string()), &Some("old\n".to_string()));
    assert!(c.query_command().contains(&"old".to_string()), "{:?}", c.query_command());
    assert!(c.token_to_persist().is_none());
    let r = c.answered(Some(b"new\0x\0"));
    assert!(matches!(r, ChangeSet::Delta(v) if v == strings(&["x"])));
    let (path, body) = c.token_to_persist().unwrap();
    assert_eq!(path, token_path("/s"));
    assert!(body.starts_with("new"));
    assert!(matches!(c.answered(None), ChangeSet::FreshInstance));
}
