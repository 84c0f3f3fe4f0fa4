use giant::config::{RemoteAuth, RemoteConfig, RemoteKind};
use giant::gha::{ac_key, cas_key, download_from, parse_number, reserved, uploaded, GhaConfig, GhaError, StoreStep, TwirpCall, TwirpStep};
use giant::model::{CacheKey, ContentHash};
use giant::outputs::AcEntry;
use giant::remote::{
    ac_url, auth_header, cas_url, entry_put_note, is_present, open_remote, remote_active, upload_steps, Auth, BackendConfig,
    Opening, PutPlan, RemoteAcEntry, RemoteCache, RemoteCacheConfig, RemoteError, Upload, UploadJob,
};

fn env(v: &[(&str, &str)]) -> Vec<(String, String)> {
    v.iter().map(|(a, b)| (a.to_string(), b.to_string())).collect()
}

fn key() -> CacheKey {
    CacheKey::new(ContentHash::of_bytes(b"k"))
}

fn entry() -> AcEntry {
    AcEntry {
        schema: 3,
        target_id: "//pkg:demo".into(),
        cache_key: "abc".into(),
        command: "cp a b".into(),
        cwd: String::new(),
        outputs: vec![],
        outputs_content_hash: "deadbeef".into(),
        stdout_blob: None,
        stderr_blob: None,
        exit_code: 0,
        duration_ms: 42,
        built_at: "2026".into(),
        built_by: None,
    }
}

fn http(skip_head: bool, max: u64) -> RemoteCacheConfig {
    RemoteCacheConfig {
        backend: BackendConfig::BazelHttp { base_url: "http://c".to_string(), auth: Auth::Anonymous },
        skip_head,
        max_blob_size: max,
        skip_tls_verify: false,
    }
}

#[test]
fn version_is_stable_and_schema_dependent() {
    let a = GhaConfig::new("https://x".into(), "t".into(), 1);
    let b = GhaConfig::new("https://x".into(), "t".into(), 1);
    let c = GhaConfig::new("https://x".into(), "t".into(), 2);
    assert_eq!(a.version, b.version);
    assert_ne!(a.version, c.version);
    assert_eq!(a.version.len(), 64, "sha256 hex");
}

#[test]
fn results_url_trailing_slash_is_normalized() {
    let c = GhaConfig::new("https://x/".into(), "t".into(), 1);
    assert_eq!(c.results_url, "https://x");
}

#[test]
fn an_entry_survives_the_wire_form() {
    let local = RemoteAcEntry::from_local(entry()).into_local();
    assert_eq!(local, entry());
    assert_eq!(RemoteAcEntry::from_local(entry()).schema, 1);
}

#[test]
fn the_service_is_found_in_the_environment() {
    let both = env(&[("ACTIONS_RESULTS_URL", "https://r/"), ("ACTIONS_RUNTIME_TOKEN", "t")]);
    let c = GhaConfig::from_env(1, &both).unwrap();
    assert_eq!(c.results_url, "https://r");
    assert_eq!(c.token, "t");
    assert!(c.method_url("M").starts_with("https://r/"));
    assert!(c.method_url("M").ends_with("/M"));
    assert!(GhaConfig::from_env(1, &env(&[("ACTIONS_RESULTS_URL", "https://r/")])).is_err());
    assert!(GhaConfig::from_env(1, &env(&[])).is_err());
}

#[test]
fn keys_carry_the_hash() {
    assert!(ac_key(&key()).ends_with(&key().to_hex()));
    assert!(cas_key(&key().as_content_hash()).ends_with(&key().to_hex()));
    assert_ne!(ac_key(&key()), cas_key(&key().as_content_hash()));
    assert_eq!(ac_url("http://c", &key()), format!("http://c/ac/{}", key().to_hex()));
    assert_eq!(cas_url("http://c", &key().as_content_hash()), format!("http://c/cas/{}", key().to_hex()));
}

#[test]
fn a_busy_service_is_asked_again_and_not_forever() {
    let mut call = TwirpCall::new();
    assert!(matches!(call.replied(200, &None), TwirpStep::Take));
    let mut call = TwirpCall::new();
    assert!(matches!(call.replied(401, &None), TwirpStep::Auth));
    let mut call = TwirpCall::new();
    assert!(matches!(call.replied(400, &None), TwirpStep::Fail));
    let mut call = TwirpCall::new();
    assert!(matches!(call.replied(503, &None), TwirpStep::Fail));
    let mut call = TwirpCall::new();
    assert!(matches!(call.replied(429, &Some("7".to_string())), TwirpStep::Retry(7)));
    let mut call = TwirpCall::new();
    let mut waits = Vec::new();
    while let TwirpStep::Retry(s) = call.replied(429, &None) {
        waits.push(s);
        assert!(waits.len() < 10);
    }
    assert_eq!(waits, vec![1, 4]);
}

#[test]
fn numbers_are_read_as_rust_reads_them() {
    for s in ["0", "17", "+5", "", "x", "-1", "18446744073709551615", "18446744073709551616", "007"] {
        assert_eq!(parse_number(s), s.parse::<u64>().ok(), "{s}");
    }
}

#[test]
fn storing_follows_the_reply() {
    assert!(matches!(reserved(Ok((true, "u".to_string()))), StoreStep::Upload(u) if u == "u"));
    assert!(matches!(reserved(Ok((false, String::new()))), StoreStep::Declined));
    assert!(matches!(reserved(Err(GhaError::Auth)), StoreStep::Fail(GhaError::Auth)));
    assert!(uploaded(201).is_ok());
    assert!(uploaded(500).is_err());
    assert_eq!(download_from(true, "u".to_string()), Some("u".to_string()));
    assert_eq!(download_from(false, "u".to_string()), None);
    assert!(!GhaError::Auth.message().is_empty());
    assert!(GhaError::Http("h".to_string()).message().contains('h'));
    let t = GhaError::Twirp { method: "M".to_string(), status: 500, body: "b".to_string() };
    assert!(t.message().contains("500") && t.message().contains('M'));
}

#[test]
fn basic_credentials_are_encoded() {
    let basic = Auth::Basic { user: "user".to_string(), pass: "pass".to_string() };
    assert_eq!(auth_header(&basic).as_deref(), Some("Basic dXNlcjpwYXNz"));
    assert_eq!(auth_header(&Auth::Bearer("t".to_string())).as_deref(), Some("Bearer t"));
    assert_eq!(auth_header(&Auth::Anonymous), None);
}

#[test]
fn a_config_needs_its_url_and_credentials() {
    let mut cfg = RemoteConfig::default();
    cfg.enabled = true;
    cfg.kind = RemoteKind::BazelHttp;
    assert!(matches!(RemoteCacheConfig::from_config(&cfg, &env(&[])), Err(RemoteError::Config(_))));
    cfg.url = Some("http://c/".to_string());
    let ok = RemoteCacheConfig::from_config(&cfg, &env(&[])).unwrap();
    assert!(matches!(ok.backend, BackendConfig::BazelHttp { auth: Auth::Anonymous, .. }));
    cfg.auth = RemoteAuth::Bearer { token_env: "TOK".to_string() };
    assert!(RemoteCacheConfig::from_config(&cfg, &env(&[])).is_err());
    let ok = RemoteCacheConfig::from_config(&cfg, &env(&[("TOK", "s")])).unwrap();
    assert!(matches!(ok.backend, BackendConfig::BazelHttp { auth: Auth::Bearer(t), .. } if t == "s"));
    cfg.kind = RemoteKind::GithubActions;
    assert!(RemoteCacheConfig::from_config(&cfg, &env(&[])).is_err());
    let mut off = RemoteConfig::default();
    off.enabled = false;
    assert!(!remote_active(&off, true));
}

#[test]
fn refused_credentials_turn_the_cache_off_for_good() {
    let mut c = RemoteCache::open(http(false, 100));
    assert!(!c.is_disabled());
    assert!(c.fetched(Some(200)));
    assert!(!c.fetched(Some(404)));
    assert!(!c.is_disabled());
    assert!(!c.fetched(Some(401)));
    assert!(c.is_disabled());
    assert!(!c.fetched(Some(200)) || c.is_disabled());
    let mut b = RemoteCache::open(http(false, 100));
    let limit = 100;
    assert!(b.fetched_blob(Some(200), 0));
    assert!(b.fetched_blob(Some(200), limit));
    assert!(!b.fetched_blob(Some(200), limit + 1));
    assert!(!b.fetched_blob(Some(404), 1) && !b.fetched_blob(None, 1));
    assert!(!b.is_disabled());
    assert!(!b.fetched_blob(Some(403), 1));
    assert!(b.is_disabled());
    assert!(matches!(c.plan_put_cas(1), PutPlan::Skip));
}

#[test]
fn missing_credentials_disable_the_remote_and_nothing_else() {
    let mut cfg = RemoteConfig::default();
    cfg.kind = RemoteKind::BazelHttp;
    cfg.enabled = false;
    assert_eq!(open_remote(&cfg, false, &env(&[])), Opening::Inactive);
    cfg.enabled = true;
    assert_eq!(
        open_remote(&cfg, false, &env(&[])),
        Opening::Broken("remote cache config: bad config: cache.remote.url is required when enabled".to_string())
    );
    cfg.url = Some("https://cache.invalid".to_string());
    cfg.auth = RemoteAuth::Basic { username_env: "U".to_string(), password_env: "P".to_string() };
    assert_eq!(
        open_remote(&cfg, false, &env(&[("U", "u")])),
        Opening::Disabled("remote cache disabled: bad config: env var P is unset".to_string())
    );
    assert!(matches!(open_remote(&cfg, false, &env(&[("U", "u"), ("P", "p")])), Opening::Open(_)));
    cfg.kind = RemoteKind::GithubActions;
    assert_eq!(open_remote(&cfg, false, &env(&[])), Opening::Inactive);
    assert!(matches!(open_remote(&cfg, true, &env(&[])), Opening::Broken(_)));
}

#[test]
fn an_entry_that_was_not_taken_is_spoken_of() {
    assert!(entry_put_note(Some(400)).unwrap().contains("--disable_http_ac_validation"));
    assert_eq!(entry_put_note(Some(503)).as_deref(), Some("remote action-cache write failed: HTTP 503"));
    assert_eq!(entry_put_note(None).as_deref(), Some("remote action-cache write failed: no reply"));
    assert_eq!(entry_put_note(Some(200)), None);
    assert_eq!(entry_put_note(Some(403)), None);
}

#[test]
fn large_blobs_are_not_sent() {
    let c = RemoteCache::open(http(false, 100));
    assert!(matches!(c.plan_put_cas(100), PutPlan::Probe));
    assert!(matches!(c.plan_put_cas(101), PutPlan::Skip));
    let direct = RemoteCache::open(http(true, 100));
    assert!(matches!(direct.plan_put_cas(5), PutPlan::Upload));
    assert!(is_present(Some(200)) && !is_present(Some(404)) && !is_present(None));
}

#[test]
fn blobs_go_before_the_entry() {
    let job = UploadJob {
        cache_key: key(),
        ac_entry: entry(),
        blobs: vec![(ContentHash::of_bytes(b"1"), b"1".to_vec()), (ContentHash::of_bytes(b"2"), b"2".to_vec())],
    };
    let steps = upload_steps(job);
    assert_eq!(steps.len(), 3);
    assert!(matches!(&steps[0], Upload::Blob(h, b) if *h == ContentHash::of_bytes(b"1") && b == b"1"));
    assert!(matches!(&steps[1], Upload::Blob(..)));
    assert!(matches!(&steps[2], Upload::Entry(k, _) if *k == key()));
}

#[test]
fn remote_errors_in_words() {
    assert!(RemoteError::Config("c".to_string()).message().contains('c'));
    assert!(RemoteError::Http("h".to_string()).message().contains('h'));
    let bad = RemoteError::BadStatus { url: "u".to_string(), status: 500 };
    assert!(bad.message().contains("500"));
    assert!(!RemoteError::AuthFailed.message().is_empty());
    assert!(!RemoteError::BlobTooLarge.message().is_empty());
    assert!(RemoteError::Serde("s".to_string()).message().contains('s'));
}
