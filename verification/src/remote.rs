//! The remote cache: where it is, what is asked of it, and what its replies
//! mean. A remote that fails is a remote that has nothing: a build never waits
//! for it to recover.

use crate::config::{RemoteAuth, RemoteConfig, RemoteKind};
use crate::digest::hex_of;
use crate::gha::{lookup, variable, GhaConfig};
use crate::model::{CacheKey, ContentHash};
use crate::outputs::AcEntry;
use crate::prep::{product, saturated};
use crate::text::{cat2, cat3, cat4, decimal, number, owned, trim_end_char, utf8, without_trailing};
use vstd::prelude::*;
use vstd::string::*;

verus! {

/// Why the remote cache cannot be used.
#[derive(Debug, PartialEq, Eq)]
pub enum RemoteError {
    Http(String),
    BadStatus { url: String, status: u16 },
    AuthFailed,
    Config(String),
    BlobTooLarge,
    Serde(String),
}

impl RemoteError {
    /// The error in words.
    pub open spec fn text(&self) -> Seq<char> {
        match *self {
            RemoteError::Http(e) => "HTTP: "@ + e@,
            RemoteError::BadStatus { url, status } => "server returned "@ + decimal(status as nat) + " for "@ + url@,
            RemoteError::AuthFailed => "auth failed (HTTP 401/403)"@,
            RemoteError::Config(m) => "bad config: "@ + m@,
            RemoteError::BlobTooLarge => "blob exceeds max_blob_size_mb"@,
            RemoteError::Serde(e) => "serde: "@ + e@,
        }
    }

    pub fn message(&self) -> (r: String)
        ensures
            r@ == self.text(),
    {
        match self {
            RemoteError::Http(e) => cat2("HTTP: ", e.as_str()),
            RemoteError::BadStatus { url, status } => {
                let n = number(*status as u128);
                cat4("server returned ", n.as_str(), " for ", url.as_str())
            },
            RemoteError::AuthFailed => owned("auth failed (HTTP 401/403)"),
            RemoteError::Config(m) => cat2("bad config: ", m.as_str()),
            RemoteError::BlobTooLarge => owned("blob exceeds max_blob_size_mb"),
            RemoteError::Serde(e) => cat2("serde: ", e.as_str()),
        }
    }
}

/// The remote cache with everything looked up.
#[derive(Debug, PartialEq, Eq)]
pub struct RemoteCacheConfig {
    pub backend: BackendConfig,
    pub skip_head: bool,
    /// In bytes.
    pub max_blob_size: u64,
    pub skip_tls_verify: bool,
}

#[derive(Debug, PartialEq, Eq)]
pub enum BackendConfig {
    BazelHttp { base_url: String, auth: Auth },
    GithubActions(GhaConfig),
}

#[derive(Debug, PartialEq, Eq)]
pub enum Auth {
    Anonymous,
    Bearer(String),
    Basic { user: String, pass: String },
}

/// The version of an entry as the remote keeps it.
pub const REMOTE_AC_SCHEMA: u32 = 1;

/// The complaint about a variable that is not set.
pub open spec fn unset_var_text(name: Seq<char>) -> Seq<char> {
    "env var "@ + name + " is unset"@
}

/// The first variable that the credentials need and that is not set.
pub open spec fn missing_var(auth: RemoteAuth, env: Seq<(String, String)>) -> Option<Seq<char>> {
    match auth {
        RemoteAuth::Anonymous => None,
        RemoteAuth::Bearer { token_env } => if lookup(env, token_env@) is None {
            Some(token_env@)
        } else {
            None
        },
        RemoteAuth::Basic { username_env, password_env } => if lookup(env, username_env@) is None {
            Some(username_env@)
        } else if lookup(env, password_env@) is None {
            Some(password_env@)
        } else {
            None
        },
    }
}

/// The credentials hold the values of the variables.
pub open spec fn resolves(a: Auth, auth: RemoteAuth, env: Seq<(String, String)>) -> bool {
    match auth {
        RemoteAuth::Anonymous => a is Anonymous,
        RemoteAuth::Bearer { token_env } => a matches Auth::Bearer(t) && Some(t@) == lookup(env, token_env@),
        RemoteAuth::Basic { username_env, password_env } => a matches Auth::Basic { user, pass } && Some(user@) == lookup(env, username_env@) && Some(
            pass@,
        ) == lookup(env, password_env@),
    }
}

/// What is wrong with the settings.
pub open spec fn config_problem(cfg: RemoteConfig, env: Seq<(String, String)>) -> Option<Seq<char>> {
    match cfg.kind {
        RemoteKind::BazelHttp => if cfg.url is None {
            Some("cache.remote.url is required when enabled"@)
        } else {
            match missing_var(cfg.auth, env) {
                Some(n) => Some(unset_var_text(n)),
                None => None,
            }
        },
        RemoteKind::GithubActions => if lookup(env, "ACTIONS_RESULTS_URL"@) is None {
            Some(crate::gha::unset_text("ACTIONS_RESULTS_URL"@))
        } else if lookup(env, "ACTIONS_RUNTIME_TOKEN"@) is None {
            Some(crate::gha::unset_text("ACTIONS_RUNTIME_TOKEN"@))
        } else {
            None
        },
    }
}

fn need(env: &Vec<(String, String)>, name: &str) -> (r: Result<String, RemoteError>)
    ensures
        r is Ok <==> lookup(env@, name@) is Some,
        r matches Ok(v) ==> Some(v@) == lookup(env@, name@),
        r matches Err(e) ==> (e matches RemoteError::Config(m) && m@ == unset_var_text(name@)),
{
    match variable(env, name) {
        Some(v) => Ok(v),
        None => Err(RemoteError::Config(cat3("env var ", name, " is unset"))),
    }
}

fn resolve_auth(auth: &RemoteAuth, env: &Vec<(String, String)>) -> (r: Result<Auth, RemoteError>)
    ensures
        r is Ok <==> missing_var(*auth, env@) is None,
        r matches Ok(a) ==> resolves(a, *auth, env@),
        r matches Err(e) ==> (e matches RemoteError::Config(m) && m@ == unset_var_text(missing_var(*auth, env@)->0)),
{
    match auth {
        RemoteAuth::Anonymous => Ok(Auth::Anonymous),
        RemoteAuth::Bearer { token_env } => match need(env, token_env.as_str()) {
            Ok(t) => Ok(Auth::Bearer(t)),
            Err(e) => Err(e),
        },
        RemoteAuth::Basic { username_env, password_env } => {
            let user = match need(env, username_env.as_str()) {
                Ok(v) => v,
                Err(e) => {
                    return Err(e);
                },
            };
            match need(env, password_env.as_str()) {
                Ok(pass) => Ok(Auth::Basic { user, pass }),
                Err(e) => Err(e),
            }
        },
    }
}

/// `c` is what the settings come to with these variables.
pub open spec fn settles(c: RemoteCacheConfig, cfg: RemoteConfig, env: Seq<(String, String)>) -> bool {
    &&& c.skip_head == cfg.skip_head
    &&& c.skip_tls_verify == cfg.tls.skip_verify
    &&& c.max_blob_size == saturated(cfg.max_blob_size_mb * 0x10_0000)
    &&& match cfg.kind {
        RemoteKind::BazelHttp => c.backend matches BackendConfig::BazelHttp { base_url, auth } && base_url@ == without_trailing(cfg.url->0@, '/') && resolves(auth, cfg.auth, env),
        RemoteKind::GithubActions => c.backend matches BackendConfig::GithubActions(g) && g.results_url@ == without_trailing(lookup(env, "ACTIONS_RESULTS_URL"@)->0, '/') && g.token@ == lookup(env, "ACTIONS_RUNTIME_TOKEN"@)->0 && g.version@ == crate::gha::version_text(REMOTE_AC_SCHEMA as nat),
    }
}

impl RemoteCacheConfig {
    /// Looks up what the settings refer to in the variables. The address loses
    /// the slashes at its end, and the size limit is in bytes.
    pub fn from_config(cfg: &RemoteConfig, env: &Vec<(String, String)>) -> (r: Result<RemoteCacheConfig, RemoteError>)
        ensures
            r is Ok <==> config_problem(*cfg, env@) is None,
            r matches Err(e) ==> (e matches RemoteError::Config(m) && Some(m@) == config_problem(*cfg, env@)),
            r matches Ok(c) ==> settles(c, *cfg, env@),
    {
        let backend = match cfg.kind {
            RemoteKind::BazelHttp => match &cfg.url {
                None => {
                    return Err(RemoteError::Config(owned("cache.remote.url is required when enabled")));
                },
                Some(url) => match resolve_auth(&cfg.auth, env) {
                    Ok(auth) => BackendConfig::BazelHttp { base_url: trim_end_char(url.as_str(), '/'), auth },
                    Err(e) => {
                        return Err(e);
                    },
                },
            },
            RemoteKind::GithubActions => match GhaConfig::from_env(REMOTE_AC_SCHEMA, env) {
                Ok(g) => BackendConfig::GithubActions(g),
                Err(m) => {
                    return Err(RemoteError::Config(m));
                },
            },
        };
        Ok(
            RemoteCacheConfig {
                backend,
                skip_head: cfg.skip_head,
                max_blob_size: product(cfg.max_blob_size_mb, 0x10_0000),
                skip_tls_verify: cfg.tls.skip_verify,
            },
        )
    }
}

/// Whether a remote cache is used at all: it is enabled, and the service of
/// GitHub Actions is only used inside Actions.
pub fn remote_active(cfg: &RemoteConfig, in_actions: bool) -> (r: bool)
    ensures
        r == (cfg.enabled && (cfg.kind is BazelHttp || in_actions)),
{
    if !cfg.enabled {
        return false;
    }
    match cfg.kind {
        RemoteKind::BazelHttp => true,
        RemoteKind::GithubActions => in_actions,
    }
}

/// What became of the remote cache that the settings ask for.
#[derive(Debug, PartialEq, Eq)]
pub enum Opening {
    /// None is asked for.
    Inactive,
    /// The credentials are not there: the build goes on without, and says so.
    Disabled(String),
    /// The settings are wrong.
    Broken(String),
    Open(RemoteCacheConfig),
}

/// Whether and how the remote cache is used. Credentials that are not there
/// fail no build; inside Actions the service's own have to be there.
pub fn open_remote(cfg: &RemoteConfig, in_actions: bool, env: &Vec<(String, String)>) -> (r: Opening)
    ensures
        r is Inactive <==> !(cfg.enabled && (cfg.kind is BazelHttp || in_actions)),
        !(r is Inactive) ==> match config_problem(*cfg, env@) {
            None => r matches Opening::Open(c) && settles(c, *cfg, env@),
            Some(p) => if cfg.kind is BazelHttp && cfg.url is Some {
                r matches Opening::Disabled(m) && m@ == "remote cache disabled: "@ + ("bad config: "@ + p)
            } else {
                r matches Opening::Broken(m) && m@ == "remote cache config: "@ + ("bad config: "@ + p)
            },
        },
{
    if !remote_active(cfg, in_actions) {
        return Opening::Inactive;
    }
    match RemoteCacheConfig::from_config(cfg, env) {
        Ok(c) => Opening::Open(c),
        Err(e) => {
            let m = e.message();
            let soft: bool = match cfg.kind {
                RemoteKind::BazelHttp => cfg.url.is_some(),
                RemoteKind::GithubActions => false,
            };
            if soft {
                Opening::Disabled(cat2("remote cache disabled: ", m.as_str()))
            } else {
                Opening::Broken(cat2("remote cache config: ", m.as_str()))
            }
        },
    }
}

// Credentials.

/// The character of a group of six bits.
pub open spec fn base64_char(v: int) -> char {
    if v < 26 {
        (('A' as int) + v) as char
    } else if v < 52 {
        (('a' as int) + v - 26) as char
    } else if v < 62 {
        (('0' as int) + v - 52) as char
    } else if v == 62 {
        '+'
    } else {
        '/'
    }
}

/// Three bytes as four characters; `pad` of the last stand for missing bytes.
pub open spec fn base64_group(a: int, b: int, c: int, pad: int) -> Seq<char> {
    seq![
        base64_char(a / 4),
        base64_char(a % 4 * 16 + b / 16),
        if pad >= 2 {
            '='
        } else {
            base64_char(b % 16 * 4 + c / 64)
        },
        if pad >= 1 {
            '='
        } else {
            base64_char(c % 64)
        },
    ]
}

/// Bytes in base 64 with the usual alphabet and padding.
pub open spec fn base64_of(data: Seq<u8>) -> Seq<char>
    decreases data.len(),
{
    if data.len() == 0 {
        Seq::<char>::empty()
    } else if data.len() == 1 {
        base64_group(data[0] as int, 0, 0, 2)
    } else if data.len() == 2 {
        base64_group(data[0] as int, data[1] as int, 0, 1)
    } else {
        base64_group(data[0] as int, data[1] as int, data[2] as int, 0) + base64_of(data.skip(3))
    }
}

/// The length of the encoding of `n` bytes.
pub open spec fn base64_len(n: nat) -> nat {
    (n + 2) / 3 * 4
}

/// `base64::Engine::encode` of the standard engine. Trusted: it is the encoding
/// with the standard alphabet and padding. It panics where the result is longer
/// than an allocation can be, which the bound rules out.
#[verifier::external_body]
fn base64_encode(data: &[u8]) -> (r: String)
    requires
        base64_len(data@.len()) <= isize::MAX,
    ensures
        r@ == base64_of(data@),
{
    base64::Engine::encode(&base64::engine::general_purpose::STANDARD, data)
}

/// The value of the header with the credentials; none without credentials.
pub fn auth_header(auth: &Auth) -> (r: Option<String>)
    requires
        auth matches Auth::Basic { user, pass } ==> base64_len(utf8(user@ + ":"@ + pass@).len()) <= isize::MAX,
    ensures
        match *auth {
            Auth::Anonymous => r is None,
            Auth::Bearer(t) => r matches Some(h) && h@ == "Bearer "@ + t@,
            Auth::Basic { user, pass } => r matches Some(h) && h@ == "Basic "@ + base64_of(utf8(user@ + ":"@ + pass@)),
        },
{
    match auth {
        Auth::Anonymous => None,
        Auth::Bearer(t) => Some(cat2("Bearer ", t.as_str())),
        Auth::Basic { user, pass } => {
            let both = cat3(user.as_str(), ":", pass.as_str());
            let token = base64_encode(both.as_str().as_bytes());
            Some(cat2("Basic ", token.as_str()))
        },
    }
}

// Requests and replies.

/// The address of a cache entry.
pub fn ac_url(base_url: &str, key: &CacheKey) -> (r: String)
    ensures
        r@ == base_url@ + "/ac/"@ + hex_of(key@),
{
    let hex = key.to_hex();
    cat3(base_url, "/ac/", hex.as_str())
}

/// The address of a blob.
pub fn cas_url(base_url: &str, hash: &ContentHash) -> (r: String)
    ensures
        r@ == base_url@ + "/cas/"@ + hex_of(hash@),
{
    let hex = hash.to_hex();
    cat3(base_url, "/cas/", hex.as_str())
}

/// How an upload of a blob goes on.
#[derive(Debug, Clone, Copy, PartialEq, Eq, Structural)]
pub enum PutPlan {
    Skip,
    /// Ask whether it is there, and upload it if not.
    Probe,
    Upload,
}

/// The credentials were refused.
pub open spec fn refuses(status: u16) -> bool {
    status == 401 || status == 403
}

/// A reply after which the remote is given up; no status stands for a request
/// that failed.
pub open spec fn gives_up(status: Option<u16>) -> bool {
    status matches Some(s) && refuses(s)
}

/// Whether the remote is given up after these replies, one after the other.
pub open spec fn disabled_after(was: bool, replies: Seq<Option<u16>>) -> bool
    decreases replies.len(),
{
    if replies.len() == 0 {
        was
    } else {
        disabled_after(was, replies.drop_last()) || gives_up(replies.last())
    }
}

/// A client of the remote cache. Once its credentials were refused it asks
/// nothing more.
pub struct RemoteCache {
    config: RemoteCacheConfig,
    disabled: bool,
}

impl RemoteCache {
    pub closed spec fn config(&self) -> RemoteCacheConfig {
        self.config
    }

    pub closed spec fn disabled(&self) -> bool {
        self.disabled
    }

    pub fn open(config: RemoteCacheConfig) -> (r: RemoteCache)
        ensures
            r.config() == config,
            !r.disabled(),
    {
        RemoteCache { config, disabled: false }
    }

    pub fn is_disabled(&self) -> (r: bool)
        ensures
            r == self.disabled(),
    {
        self.disabled
    }

    pub fn backend(&self) -> (r: &BackendConfig)
        ensures
            *r == self.config().backend,
    {
        &self.config.backend
    }

    /// What a reply to a fetch means; no status stands for a request that
    /// failed. The body counts if the status is 200; anything else is a miss,
    /// and refused credentials end the use of the remote.
    pub fn fetched(&mut self, status: Option<u16>) -> (r: bool)
        ensures
            final(self).config() == old(self).config(),
            r == (status == Some(200u16)),
            final(self).disabled() == (old(self).disabled() || gives_up(status)),
    {
        match status {
            Some(s) => {
                if s == 200 {
                    return true;
                }
                if s == 401 || s == 403 {
                    self.disabled = true;
                }
                false
            },
            None => false,
        }
    }

    /// What a reply to the fetch of a blob of `size` bytes means: as for any
    /// fetch, but a body over the limit for blobs is a miss.
    pub fn fetched_blob(&mut self, status: Option<u16>, size: u64) -> (r: bool)
        ensures
            final(self).config() == old(self).config(),
            r == (status == Some(200u16) && size <= old(self).config().max_blob_size),
            final(self).disabled() == (old(self).disabled() || gives_up(status)),
    {
        self.fetched(status) && size <= self.config.max_blob_size
    }

    /// What a reply to an upload means: whether it was stored. A failure is no
    /// error of the build.
    pub fn stored(&mut self, status: Option<u16>) -> (r: bool)
        ensures
            final(self).config() == old(self).config(),
            r == (status matches Some(s) && 200 <= s < 300),
            final(self).disabled() == (old(self).disabled() || gives_up(status)),
    {
        match status {
            Some(s) => {
                if 200 <= s && s < 300 {
                    return true;
                }
                if s == 401 || s == 403 {
                    self.disabled = true;
                }
                false
            },
            None => false,
        }
    }

    /// What an outcome of the service of GitHub Actions means: refused
    /// credentials end the use of the remote.
    pub fn service_failed(&mut self, auth: bool)
        ensures
            final(self).config() == old(self).config(),
            final(self).disabled() == (old(self).disabled() || auth),
    {
        if auth {
            self.disabled = true;
        }
    }

    /// Whether to ask for a blob before uploading it.
    pub fn probes(&self) -> (r: bool)
        ensures
            r == (!self.disabled() && !self.config().skip_head),
    {
        !self.disabled && !self.config.skip_head
    }

    /// How an upload of a blob goes on. One that is too large stays away; a
    /// server of the Bazel protocol is asked first unless the settings say
    /// otherwise, the service of GitHub Actions declines by itself.
    pub fn plan_put_cas(&self, size: u64) -> (r: PutPlan)
        ensures
            r is Skip <==> self.disabled() || size > self.config().max_blob_size,
            r is Probe <==> !self.disabled() && size <= self.config().max_blob_size && self.config().backend is BazelHttp && !self.config().skip_head,
    {
        if self.disabled || size > self.config.max_blob_size {
            return PutPlan::Skip;
        }
        match &self.config.backend {
            BackendConfig::BazelHttp { .. } => {
                if self.config.skip_head {
                    PutPlan::Upload
                } else {
                    PutPlan::Probe
                }
            },
            BackendConfig::GithubActions(_) => PutPlan::Upload,
        }
    }
}

/// A remote is given up exactly if it was before or some reply refuses its
/// credentials: no later reply brings it back, and no other failure ends its
/// use.
pub proof fn law_disabled_stays(was: bool, replies: Seq<Option<u16>>)
    ensures
        disabled_after(was, replies) <==> was || exists|i: int| 0 <= i < replies.len() && gives_up(#[trigger] replies[i]),
    decreases replies.len(),
{
    if replies.len() > 0 {
        let n = replies.len() - 1;
        let front = replies.drop_last();
        law_disabled_stays(was, front);
        if exists|i: int| 0 <= i < replies.len() && gives_up(#[trigger] replies[i]) {
            let i = choose|i: int| 0 <= i < replies.len() && gives_up(#[trigger] replies[i]);
            assert(i < n ==> gives_up(front[i]));
        }
        if exists|i: int| 0 <= i < front.len() && gives_up(#[trigger] front[i]) {
            let i = choose|i: int| 0 <= i < front.len() && gives_up(#[trigger] front[i]);
            assert(gives_up(replies[i]));
        }
    }
}

/// What is said of the reply to an entry that was put: nothing of a success or
/// of refused credentials. A server that rejects the entry most likely
/// validates it, which can be switched off there.
pub fn entry_put_note(status: Option<u16>) -> (r: Option<String>)
    ensures
        r is None <==> (status matches Some(s) && (200 <= s < 300 || refuses(s))),
        r matches Some(m) ==> m@ == (match status {
            Some(s) => if s == 400 {
                "remote action-cache write rejected (HTTP 400); if the server validates entries, start it with --disable_http_ac_validation"@
            } else {
                "remote action-cache write failed: HTTP "@ + decimal(s as nat)
            },
            None => "remote action-cache write failed: no reply"@,
        }),
{
    match status {
        Some(s) => {
            if (200 <= s && s < 300) || s == 401 || s == 403 {
                None
            } else if s == 400 {
                Some(owned("remote action-cache write rejected (HTTP 400); if the server validates entries, start it with --disable_http_ac_validation"))
            } else {
                let n = number(s as u128);
                Some(cat2("remote action-cache write failed: HTTP ", n.as_str()))
            }
        },
        None => Some(owned("remote action-cache write failed: no reply")),
    }
}

/// Whether a blob is there, by the reply to a probe.
pub fn is_present(status: Option<u16>) -> (r: bool)
    ensures
        r == (status == Some(200u16)),
{
    match status {
        Some(s) => s == 200,
        None => false,
    }
}

// Entries.

/// An entry as the remote keeps it, with a version of its own.
#[derive(Debug, PartialEq, Eq)]
pub struct RemoteAcEntry {
    pub schema: u32,
    pub entry: AcEntry,
}

impl RemoteAcEntry {
    pub fn from_local(entry: AcEntry) -> (r: RemoteAcEntry)
        ensures
            r.schema == REMOTE_AC_SCHEMA,
            r.entry == entry,
    {
        RemoteAcEntry { schema: REMOTE_AC_SCHEMA, entry }
    }

    /// The entry; one of any version is taken.
    pub fn into_local(self) -> (r: AcEntry)
        ensures
            r == self.entry,
    {
        self.entry
    }
}

/// What was built, to be uploaded.
#[derive(Debug)]
pub struct UploadJob {
    pub cache_key: CacheKey,
    pub ac_entry: AcEntry,
    pub blobs: Vec<(ContentHash, Vec<u8>)>,
}

/// One upload.
#[derive(Debug)]
pub enum Upload {
    Blob(ContentHash, Vec<u8>),
    Entry(CacheKey, AcEntry),
}

/// The uploads of a job, in order: all blobs, then the entry. Whoever sees the
/// entry finds its blobs.
pub fn upload_steps(job: UploadJob) -> (r: Vec<Upload>)
    ensures
        r@.len() == job.blobs@.len() + 1,
        forall|i: int| 0 <= i < job.blobs@.len() ==> #[trigger] r@[i] == Upload::Blob(job.blobs@[i].0, job.blobs@[i].1),
        r@.last() == Upload::Entry(job.cache_key, job.ac_entry),
{
    let ghost blobs = job.blobs@;
    let mut out: Vec<Upload> = Vec::new();
    for p in it: job.blobs.into_iter()
        invariant
            it.seq() == blobs,
            out@.len() == it.index(),
            forall|i: int| 0 <= i < it.index() ==> #[trigger] out@[i] == Upload::Blob(blobs[i].0, blobs[i].1),
    {
        out.push(Upload::Blob(p.0, p.1));
    }
    out.push(Upload::Entry(job.cache_key, job.ac_entry));
    out
}

/// A remote that worked is given up exactly if some reply says that its
/// credentials are not accepted.
pub proof fn law_given_up(replies: Seq<Option<u16>>)
    ensures
        disabled_after(false, replies) <==> exists|i: int| 0 <= i < replies.len() && (#[trigger] replies[i] == Some(401u16) || replies[i] == Some(403u16)),
        disabled_after(true, replies),
{
    law_disabled_stays(false, replies);
    law_disabled_stays(true, replies);
    if exists|i: int| 0 <= i < replies.len() && gives_up(#[trigger] replies[i]) {
        let i = choose|i: int| 0 <= i < replies.len() && gives_up(#[trigger] replies[i]);
        assert(replies[i] == Some(401u16) || replies[i] == Some(403u16));
    }
    if exists|i: int| 0 <= i < replies.len() && (#[trigger] replies[i] == Some(401u16) || replies[i] == Some(403u16)) {
        let i = choose|i: int| 0 <= i < replies.len() && (#[trigger] replies[i] == Some(401u16) || replies[i] == Some(403u16));
        assert(gives_up(replies[i]));
    }
}

/// Settings are accepted exactly if all that the backend needs is there: an
/// address and each variable of the credentials, or the two variables that the
/// workflow sets.
pub proof fn law_settings_accepted(cfg: RemoteConfig, env: Seq<(String, String)>)
    ensures
        cfg.kind is BazelHttp ==> (config_problem(cfg, env) is None <==> cfg.url is Some && match cfg.auth {
            RemoteAuth::Anonymous => true,
            RemoteAuth::Bearer { token_env } => lookup(env, token_env@) is Some,
            RemoteAuth::Basic { username_env, password_env } => lookup(env, username_env@) is Some && lookup(env, password_env@) is Some,
        }),
        cfg.kind is GithubActions ==> (config_problem(cfg, env) is None <==> lookup(env, "ACTIONS_RESULTS_URL"@) is Some && lookup(
            env,
            "ACTIONS_RUNTIME_TOKEN"@,
        ) is Some),
{
}

/// A complaint about a variable names one that the credentials need and that is
/// not set.
pub proof fn law_missing_var(auth: RemoteAuth, env: Seq<(String, String)>, name: Seq<char>)
    requires
        missing_var(auth, env) == Some(name),
    ensures
        forall|i: int| 0 <= i < env.len() ==> (#[trigger] env[i]).0@ != name,
        match auth {
            RemoteAuth::Anonymous => false,
            RemoteAuth::Bearer { token_env } => name == token_env@,
            RemoteAuth::Basic { username_env, password_env } => name == username_env@ || name == password_env@,
        },
{
    crate::gha::law_lookup(env, name);
}

/// The settings that come out hold what was set: the address without slashes at
/// its end, the values of the variables, and the size limit in bytes.
pub proof fn law_settled(c: RemoteCacheConfig, cfg: RemoteConfig, env: Seq<(String, String)>)
    requires
        settles(c, cfg, env),
        cfg.kind is BazelHttp,
        cfg.url is Some,
    ensures
        c.skip_head == cfg.skip_head,
        c.skip_tls_verify == cfg.tls.skip_verify,
        c.backend is BazelHttp,
        ({
            let url = c.backend->base_url@;
            &&& url.len() == 0 || url.last() != '/'
            &&& url.len() <= cfg.url->0@.len()
            &&& url == cfg.url->0@.take(url.len() as int)
            &&& forall|i: int| url.len() <= i < cfg.url->0@.len() ==> #[trigger] cfg.url->0@[i] == '/'
        }),
        cfg.max_blob_size_mb * 0x10_0000 <= u64::MAX ==> c.max_blob_size == cfg.max_blob_size_mb * 1024 * 1024,
        cfg.auth matches RemoteAuth::Bearer { token_env } ==> (c.backend->auth matches Auth::Bearer(t) && Some(t@) == lookup(env, token_env@)),
        cfg.auth matches RemoteAuth::Basic { username_env, password_env } ==> (c.backend->auth matches Auth::Basic { user, pass } && Some(user@)
            == lookup(env, username_env@) && Some(pass@) == lookup(env, password_env@)),
        cfg.auth is Anonymous <==> c.backend->auth is Anonymous,
{
    crate::text::law_without_trailing(cfg.url->0@, '/');
}

/// A group of six bits is written as the character at its place in the usual
/// alphabet.
pub proof fn law_base64_alphabet(v: int)
    requires
        0 <= v < 64,
    ensures
        base64_char(v) == "ABCDEFGHIJKLMNOPQRSTUVWXYZabcdefghijklmnopqrstuvwxyz0123456789+/"@[v],
        forall|w: int| 0 <= w < 64 && #[trigger] base64_char(w) == base64_char(v) ==> w == v,
{
    reveal_strlit("ABCDEFGHIJKLMNOPQRSTUVWXYZabcdefghijklmnopqrstuvwxyz0123456789+/");
}

/// Three bytes are told by the four groups of six bits in which they are written.
pub proof fn law_base64_group(a: int, b: int, c: int)
    requires
        0 <= a < 256,
        0 <= b < 256,
        0 <= c < 256,
    ensures
        base64_group(a, b, c, 0).len() == 4,
        exists|p: int, q: int, r: int, s: int|
            #![trigger base64_char(p), base64_char(q), base64_char(r), base64_char(s)]
            0 <= p < 64 && 0 <= q < 64 && 0 <= r < 64 && 0 <= s < 64 && base64_group(a, b, c, 0) == seq![
                base64_char(p),
                base64_char(q),
                base64_char(r),
                base64_char(s),
            ] && 0x4_0000 * p + 0x1000 * q + 0x40 * r + s == 0x1_0000 * a + 0x100 * b + c,
{
    let p = a / 4;
    let q = a % 4 * 16 + b / 16;
    let r = b % 16 * 4 + c / 64;
    let s = c % 64;
    assert(base64_group(a, b, c, 0) == seq![base64_char(p), base64_char(q), base64_char(r), base64_char(s)]);
}

/// The encoding of some bytes goes on with that of the bytes behind them, three at
/// a time.
pub proof fn law_base64_concat(a: Seq<u8>, b: Seq<u8>)
    requires
        a.len() % 3 == 0,
    ensures
        base64_of(a + b) == base64_of(a) + base64_of(b),
        base64_of(a).len() == a.len() / 3 * 4,
    decreases a.len(),
{
    if a.len() == 0 {
        assert(a + b == b);
    } else {
        let t = a.skip(3);
        law_base64_concat(t, b);
        assert((a + b).skip(3) == t + b);
        assert(base64_of(a + b) == base64_of(a) + base64_of(b));
    }
}

} // verus!
