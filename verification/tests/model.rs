use giant::model::{CacheKey, ContentHash, Input, TargetId, TargetSpec, WireTarget};
use giant::paths::{OutputPath, WsRelPath};
use giant::pattern::GlobPattern;

#[test]
fn content_hash_deterministic() {
    let a = ContentHash::of_bytes(b"hello");
    let b = ContentHash::of_bytes(b"hello");
    assert_eq!(a, b);
}

#[test]
fn content_hash_to_hex_64_chars() {
    let h = ContentHash::of_bytes(b"x");
    assert_eq!(h.to_hex().len(), 64);
}

#[test]
fn content_hash_is_sha256() {
    assert_eq!(
        ContentHash::of_bytes(b"hello").to_hex(),
        "2cf24dba5fb0a30e26e83b2ac5b9e29e1b161e5c1fa7425e73043362938b9824"
    );
    let mut h = ContentHash::hasher();
    h.update(b"he");
    h.update_str("ll");
    h.update_byte(b'o');
    assert_eq!(h.finalize(), ContentHash::of_bytes(b"hello"));
    // Nothing fed, and more than one block in uneven pieces.
    assert_eq!(
        ContentHash::hasher().finalize().to_hex(),
        "e3b0c44298fc1c149afbf4c8996fb92427ae41e4649b934ca495991b7852b855"
    );
    let long = vec![7u8; 1000];
    let mut h = ContentHash::hasher();
    h.update(&long[..1]);
    h.update(&long[1..500]);
    h.update(&long[500..]);
    assert_eq!(h.finalize(), ContentHash::of_bytes(&long));
}

#[test]
fn hex_reads_back_what_it_wrote() {
    let h = ContentHash::of_bytes(b"some bytes");
    assert_eq!(ContentHash::from_hex(&h.to_hex()), Some(h));
    assert_eq!(ContentHash::from_hex(&h.to_hex().to_uppercase()), Some(h));
    assert_eq!(ContentHash::from_hex("abcd"), None);
    assert_eq!(ContentHash::from_hex("zz"), None);
    assert_eq!(ContentHash::from_hex(&format!("{}0", h.to_hex())), None);
    // A prefix is no digit, however many digits follow.
    assert_eq!(ContentHash::from_hex(&format!("0x{}", h.to_hex())), None);
    assert_eq!(ContentHash::from_hex(&format!("0x{}", "0".repeat(62))), None);
    assert_eq!(ContentHash::from_hex(&format!("0X{}", "0".repeat(64))), None);
    assert_eq!(ContentHash::from_hex(&"g".repeat(64)), None);
    assert_eq!(ContentHash::from_hex(&"0".repeat(64)).map(|z| z.to_hex()), Some("0".repeat(64)));
    let k = CacheKey::new(h);
    assert_eq!(k.to_hex(), h.to_hex());
    assert_eq!(k.as_bytes(), h.as_bytes());
    assert!(k.as_content_hash().same(&h));
}

#[test]
fn target_id_borrow_as_str() {
    let id = TargetId::new("go:bin:server");
    let s: &str = id.as_ref();
    assert_eq!(s, "go:bin:server");
}

#[test]
fn target_spec_from_wire_resolves_later() {
    let w = WireTarget {
        name: "build".to_string(),
        inputs: Vec::new(),
        outputs: vec!["bin/x".to_string()],
        deps: Vec::new(),
        command: "go build".to_string(),
        cwd: None,
        env: Vec::new(),
        cache: None,
        remote_cache: true,
        network: false,
        sandbox: true,
        exists: None,
        timeout_secs: None,
        test: false,
        tags: Vec::new(),
        label: None,
        scope: Vec::new(),
    };
    let spec = TargetSpec::from(w);
    assert_eq!(spec.name, "build");
    assert_eq!(spec.outputs_raw, vec!["bin/x".to_string()]);
    assert!(spec.outputs.is_empty(), "outputs resolved by the loader");
    assert!(spec.remote_cache);
    assert!(spec.is_cacheable());
}

#[test]
fn a_label_splits_into_what_it_was_made_of() {
    let id = TargetId::label("src/go", "build");
    assert_eq!(id.as_str(), "//src/go:build");
    assert_eq!(id.split(), ("src/go", "build"));
    assert_eq!(TargetId::label("", "x").split(), ("", "x"));
}

#[test]
fn paths_stay_below_the_workspace() {
    assert_eq!(WsRelPath::new("a/b").unwrap().as_str(), "a/b");
    assert!(WsRelPath::new("/abs").is_err());
    assert!(WsRelPath::new("a/../../b").is_err());
    assert!(OutputPath::new("../x").is_err());
    assert_eq!(OutputPath::new("bin/x").unwrap().as_str(), "bin/x");
}

#[test]
fn a_bad_glob_says_where() {
    let e = GlobPattern::new("a/b**").unwrap_err();
    assert_eq!(e.pos, 2);
    assert!(e.message().contains("position 2"), "{}", e.message());
    let p = GlobPattern::new("src/**/*.go").unwrap();
    assert!(p.matches("src/a/b.go") && p.matches("src/b.go"));
    assert!(!p.matches("src/b.rs"));
    let one = GlobPattern::new("a*").unwrap();
    assert!(one.matches("a/b"));
    assert!(!one.matches_segments("a/b"));
    assert!(matches!(Input::File { glob: one }, Input::File { .. }));
}
