//! Workspace configuration: types, defaults, validation, and how package files
//! are merged.

use crate::model::{
    label_text, law_split_label, Input, TargetId, TargetSpec,
};
use crate::paths::{path_error_text, path_join, stays_below, OutputPath, WsRelPath};
use crate::pattern::{glob_error, matches_loosely, GlobError, GlobPattern};
use crate::text::{
    cat2, cat3, cat4, cat5, chars_of, decimal, ends_with, has_prefix, has_suffix, number, owned, str_eq, strip_prefix, strs,
};
use vstd::prelude::*;
use vstd::string::*;

verus! {

/// Why a configuration was not taken.
#[derive(Debug, PartialEq, Eq)]
pub enum ConfigError {
    Io(String),
    Yaml(String),
    Json(String),
    NotFound,
    Validation(String),
}

impl ConfigError {
    /// The error in words.
    pub open spec fn text(&self) -> Seq<char> {
        match self {
            ConfigError::Io(e) => "failed to read config: "@ + e@,
            ConfigError::Yaml(e) => "failed to parse YAML: "@ + e@,
            ConfigError::Json(e) => "failed to parse JSON: "@ + e@,
            ConfigError::NotFound => "config not found"@,
            ConfigError::Validation(e) => "validation: "@ + e@,
        }
    }

    pub fn message(&self) -> (r: String)
        ensures
            r@ == self.text(),
    {
        match self {
            ConfigError::Io(e) => cat2("failed to read config: ", e.as_str()),
            ConfigError::Yaml(e) => cat2("failed to parse YAML: ", e.as_str()),
            ConfigError::Json(e) => cat2("failed to parse JSON: ", e.as_str()),
            ConfigError::NotFound => owned("config not found"),
            ConfigError::Validation(e) => cat2("validation: ", e.as_str()),
        }
    }
}

/// The whole configuration.
#[derive(Debug)]
pub struct Config {
    pub schema_version: u32,
    pub workspace: WorkspaceConfig,
    pub targets: Vec<TargetSpec>,
    pub cache: CacheConfig,
    pub state: StateConfig,
    pub dispatch: DispatchConfig,
    pub remote: RemoteConfig,
}

/// Where a subcommand goes that the engine does not know.
#[derive(Debug, PartialEq, Eq)]
pub struct DispatchConfig {
    pub unknown: UnknownRoute,
}

/// One binary for everything, or rules of which the first that matches wins.
#[derive(Debug, PartialEq, Eq)]
pub enum UnknownRoute {
    One(String),
    Rules(Vec<Route>),
}

#[derive(Debug, PartialEq, Eq)]
pub struct Route {
    /// Glob that is matched against the name of the subcommand.
    pub pattern: String,
    /// The binary to run.
    pub to: String,
}

/// State that is kept next to the workspace.
#[derive(Debug, PartialEq, Eq)]
pub struct StateConfig {
    pub dir: String,
}

#[derive(Debug, PartialEq, Eq)]
pub struct WorkspaceConfig {
    pub name: String,
}

#[derive(Debug, PartialEq, Eq)]
pub struct CacheConfig {
    pub dir: String,
    pub max_size_gb: Option<u64>,
    pub evict_when_above_pct: u32,
    pub evict_target_pct: u32,
    pub max_age_days: Option<u32>,
    /// Keep the output of commands with their results.
    pub capture_logs: bool,
    /// Show kept output again on a cache hit.
    pub replay_logs: bool,
    /// How many bytes of each stream are kept.
    pub log_capture_cap_bytes: usize,
}

/// The kind of a remote cache.
#[derive(Debug, Clone, Copy, PartialEq, Eq, Structural)]
pub enum RemoteKind {
    BazelHttp,
    GithubActions,
}

#[derive(Debug, PartialEq, Eq)]
pub struct RemoteConfig {
    pub enabled: bool,
    pub kind: RemoteKind,
    pub url: Option<String>,
    pub auth: RemoteAuth,
    pub skip_head: bool,
    pub max_blob_size_mb: u64,
    pub tls: TlsConfig,
}

#[derive(Debug, PartialEq, Eq)]
pub enum RemoteAuth {
    Anonymous,
    Bearer { token_env: String },
    Basic { username_env: String, password_env: String },
}

#[derive(Debug, Clone, Copy, PartialEq, Eq, Structural)]
pub struct TlsConfig {
    pub skip_verify: bool,
}

/// Extra roots, writable paths and variables for sandboxed commands.
#[derive(Debug, PartialEq, Eq)]
pub struct SandboxConfig {
    pub roots: Vec<String>,
    pub rw: Vec<String>,
    pub env: Vec<String>,
}

impl Default for DispatchConfig {
    fn default() -> (r: Self)
        ensures
            r.unknown matches UnknownRoute::One(b) && b@ == "giant-task"@,
    {
        DispatchConfig { unknown: default_unknown_route() }
    }
}

pub fn default_unknown_route() -> (r: UnknownRoute)
    ensures
        r matches UnknownRoute::One(b) && b@ == "giant-task"@,
{
    UnknownRoute::One(owned("giant-task"))
}

pub fn default_state_dir() -> (r: String)
    ensures
        r@ == ".giant"@,
{
    owned(".giant")
}

pub fn default_schema_version() -> (r: u32)
    ensures
        r == 1,
{
    1
}

pub fn default_cache_dir() -> (r: String)
    ensures
        r@ == "~/.cache/giant"@,
{
    owned("~/.cache/giant")
}

pub fn default_max_size_gb() -> (r: Option<u64>)
    ensures
        r == Some(20u64),
{
    Some(20)
}

pub fn default_evict_above_pct() -> (r: u32)
    ensures
        r == 100,
{
    100
}

pub fn default_evict_target_pct() -> (r: u32)
    ensures
        r == 80,
{
    80
}

pub fn default_capture_logs() -> (r: bool)
    ensures
        r,
{
    true
}

pub fn default_replay_logs() -> (r: bool)
    ensures
        r,
{
    true
}

pub fn default_log_capture_cap() -> (r: usize)
    ensures
        r == 5 * 1024 * 1024,
{
    5 * 1024 * 1024
}

pub fn default_max_blob_size_mb() -> (r: u64)
    ensures
        r == 500,
{
    500
}

impl Default for StateConfig {
    fn default() -> (r: Self)
        ensures
            r.dir@ == ".giant"@,
    {
        StateConfig { dir: default_state_dir() }
    }
}

impl Default for WorkspaceConfig {
    fn default() -> (r: Self)
        ensures
            r.name@ == Seq::<char>::empty(),
    {
        WorkspaceConfig { name: String::new() }
    }
}

impl Default for CacheConfig {
    fn default() -> (r: Self)
        ensures
            r.dir@ == "~/.cache/giant"@,
            r.max_size_gb == Some(20u64),
            r.evict_when_above_pct == 100,
            r.evict_target_pct == 80,
            r.max_age_days is None,
            r.capture_logs,
            r.replay_logs,
            r.log_capture_cap_bytes == 5 * 1024 * 1024,
    {
        CacheConfig {
            dir: default_cache_dir(),
            max_size_gb: default_max_size_gb(),
            evict_when_above_pct: default_evict_above_pct(),
            evict_target_pct: default_evict_target_pct(),
            max_age_days: None,
            capture_logs: default_capture_logs(),
            replay_logs: default_replay_logs(),
            log_capture_cap_bytes: default_log_capture_cap(),
        }
    }
}

impl Default for RemoteConfig {
    fn default() -> (r: Self)
        ensures
            !r.enabled,
            r.kind is BazelHttp,
            r.url is None,
            r.auth is Anonymous,
            !r.skip_head,
            r.max_blob_size_mb == 0,
            !r.tls.skip_verify,
    {
        RemoteConfig {
            enabled: false,
            kind: RemoteKind::BazelHttp,
            url: None,
            auth: RemoteAuth::Anonymous,
            skip_head: false,
            max_blob_size_mb: 0,
            tls: TlsConfig { skip_verify: false },
        }
    }
}

impl Default for SandboxConfig {
    fn default() -> (r: Self)
        ensures
            r.roots@.len() == 0,
            r.rw@.len() == 0,
            r.env@.len() == 0,
    {
        SandboxConfig { roots: Vec::new(), rw: Vec::new(), env: Vec::new() }
    }
}

/// The pattern of `r` compiles and matches `name`.
pub open spec fn route_matches(r: Route, name: Seq<char>) -> bool {
    glob_error(r.pattern@) is None && matches_loosely(r.pattern@, name)
}

/// `i` is the first flag that is set.
pub open spec fn first_set(hits: Seq<bool>, i: int) -> bool {
    0 <= i < hits.len() && hits[i] && forall|k: int| 0 <= k < i ==> !#[trigger] hits[k]
}

/// The binary of the first rule that hits; `hits[i]` says whether rule `i` does.
pub fn pick_route<'a>(rules: &'a Vec<Route>, hits: &Vec<bool>) -> (r: Option<&'a str>)
    requires
        hits.len() == rules.len(),
    ensures
        r is None <==> forall|i: int| 0 <= i < hits.len() ==> !#[trigger] hits@[i],
        r matches Some(b) ==> exists|i: int| #[trigger] first_set(hits@, i) && b@ == rules@[i].to@,
{
    let mut i: usize = 0;
    while i < rules.len()
        invariant
            i <= rules.len(),
            hits.len() == rules.len(),
            forall|k: int| 0 <= k < i ==> !#[trigger] hits@[k],
        decreases rules.len() - i,
    {
        if hits[i] {
            assert(first_set(hits@, i as int));
            return Some(rules[i].to.as_str());
        }
        i = i + 1;
    }
    None
}

impl DispatchConfig {
    /// The binary that handles `name`: that of the first rule whose glob
    /// matches, or the one binary for everything. A rule whose glob does not
    /// compile matches nothing.
    pub fn route(&self, name: &str) -> (r: Option<&str>)
        ensures
            match self.unknown {
                UnknownRoute::One(bin) => r matches Some(b) && b@ == bin@,
                UnknownRoute::Rules(rules) => {
                    &&& r is None <==> forall|i: int| 0 <= i < rules@.len() ==> !route_matches(#[trigger] rules@[i], name@)
                    &&& r matches Some(b) ==> exists|i: int| #[trigger] first_route(rules@, name@, i) && b@ == rules@[i].to@
                },
            },
    {
        match &self.unknown {
            UnknownRoute::One(bin) => Some(bin.as_str()),
            UnknownRoute::Rules(rules) => {
                let mut hits: Vec<bool> = Vec::new();
                let mut i: usize = 0;
                while i < rules.len()
                    invariant
                        i <= rules.len(),
                        hits.len() == i,
                        forall|k: int| 0 <= k < i ==> #[trigger] hits@[k] == route_matches(rules@[k], name@),
                    decreases rules.len() - i,
                {
                    let hit: bool = match GlobPattern::new(rules[i].pattern.as_str()) {
                        Ok(p) => p.matches(name),
                        Err(_) => false,
                    };
                    hits.push(hit);
                    i = i + 1;
                }
                let r = pick_route(rules, &hits);
                proof {
                    if r is Some {
                        let k = choose|k: int| #[trigger] first_set(hits@, k) && r->0@ == rules@[k].to@;
                        assert forall|j: int| 0 <= j < k implies !route_matches(#[trigger] rules@[j], name@) by {
                            assert(!hits@[j]);
                        }
                        assert(first_route(rules@, name@, k));
                        assert(hits@[k]);
                        assert(route_matches(rules@[k], name@));
                    } else {
                        assert forall|j: int| 0 <= j < rules@.len() implies !route_matches(#[trigger] rules@[j], name@) by {
                            assert(!hits@[j]);
                        }
                    }
                }
                r
            },
        }
    }
}

/// Rule `i` is the first that matches `name`.
pub open spec fn first_route(rules: Seq<Route>, name: Seq<char>, i: int) -> bool {
    &&& 0 <= i < rules.len()
    &&& route_matches(rules[i], name)
    &&& forall|k: int| 0 <= k < i ==> !route_matches(#[trigger] rules[k], name)
}

/// The form of a dependency as a label: `//pkg:name` stays, `:name` and a bare
/// name are in the same package.
pub open spec fn dep_label(package: Seq<char>, dep: Seq<char>) -> Seq<char> {
    if has_prefix(dep, "//"@) {
        dep
    } else if has_prefix(dep, ":"@) {
        label_text(package, dep.skip(1))
    } else {
        label_text(package, dep)
    }
}

/// Resolves a dependency reference to a label.
pub fn resolve_dep_label(package: &str, dep: &str) -> (r: TargetId)
    ensures
        r@ == dep_label(package@, dep@),
{
    proof {
        reveal_strlit(":");
    }
    if crate::text::starts_with(dep, "//") {
        TargetId::new(dep)
    } else {
        match strip_prefix(dep, ":") {
            Some(rest) => TargetId::label(package, rest),
            None => TargetId::label(package, dep),
        }
    }
}

/// The workspace-relative form of a path in a package: `//x` is `x` from the
/// root, `.` is the package itself, anything else is below the package.
pub open spec fn in_package(package: Seq<char>, raw: Seq<char>) -> Seq<char> {
    if has_prefix(raw, "//"@) {
        raw.skip(2)
    } else if raw == "."@ {
        package
    } else if package.len() == 0 {
        raw
    } else {
        package + "/"@ + raw
    }
}

/// Resolves a path of a package to its workspace-relative form.
pub fn resolve_in_package(package: &str, raw: &str) -> (r: String)
    ensures
        r@ == in_package(package@, raw@),
{
    proof {
        reveal_strlit("//");
    }
    match strip_prefix(raw, "//") {
        Some(rooted) => owned(rooted),
        None => {
            if str_eq(raw, ".") {
                owned(package)
            } else if package.is_empty() {
                owned(raw)
            } else {
                cat3(package, "/", raw)
            }
        },
    }
}

/// `c` may stand in a workspace name.
pub open spec fn is_name_char(c: char) -> bool {
    ('a' <= c && c <= 'z') || ('A' <= c && c <= 'Z') || ('0' <= c && c <= '9') || c == '-' || c == '_'
}

/// `s` is a workspace name: letters, digits, `-` and `_`, at least one.
pub open spec fn is_workspace_name(s: Seq<char>) -> bool {
    s.len() > 0 && forall|i: int| 0 <= i < s.len() ==> is_name_char(#[trigger] s[i])
}

pub fn is_valid_workspace_name(s: &str) -> (r: bool)
    ensures
        r == is_workspace_name(s@),
{
    let v = chars_of(s);
    if v.len() == 0 {
        return false;
    }
    let mut i: usize = 0;
    while i < v.len()
        invariant
            i <= v.len(),
            v@ == s@,
            forall|k: int| 0 <= k < i ==> is_name_char(#[trigger] s@[k]),
        decreases v.len() - i,
    {
        let c = v[i];
        assert(s@[i as int] == c);
        if !(('a' <= c && c <= 'z') || ('A' <= c && c <= 'Z') || ('0' <= c && c <= '9') || c == '-' || c == '_') {
            return false;
        }
        i = i + 1;
    }
    true
}

/// What is wrong with target `i` of a file; nothing if it may stand.
pub open spec fn target_problem(targets: Seq<TargetSpec>, i: int) -> Option<Seq<char>> {
    let t = targets[i];
    if t.name@.len() == 0 {
        Some("target has empty name"@)
    } else if t.name@.contains('/') || t.name@.contains(':') {
        Some("target name '"@ + t.name@ + "' may not contain '/' or ':' (those are label separators)"@)
    } else if named_before(targets, i) {
        Some("duplicate target name '"@ + t.name@ + "' in the same package"@)
    } else if t.command@.len() == 0 {
        Some("target '"@ + t.name@ + "' has empty command"@)
    } else if t.cacheable() && t.outputs_raw@.len() == 0 && t.exists is None {
        Some("target '"@ + t.name@ + "' is cacheable but has no outputs and no `exists:` check"@)
    } else {
        None
    }
}

/// An earlier target has the name of target `i`.
pub open spec fn named_before(targets: Seq<TargetSpec>, i: int) -> bool {
    exists|j: int| 0 <= j < i && (#[trigger] targets[j]).name@ == targets[i].name@
}

/// Target `i` is the first with a problem, which is `m`.
pub open spec fn first_problem(targets: Seq<TargetSpec>, i: int, m: Seq<char>) -> bool {
    &&& 0 <= i < targets.len()
    &&& target_problem(targets, i) == Some(m)
    &&& forall|k: int| 0 <= k < i ==> #[trigger] target_problem(targets, k) is None
}

/// No target has a problem.
pub open spec fn targets_valid(targets: Seq<TargetSpec>) -> bool {
    forall|i: int| 0 <= i < targets.len() ==> #[trigger] target_problem(targets, i) is None
}

fn has_char(s: &str, c: char) -> (r: bool)
    ensures
        r == s@.contains(c),
{
    let v = chars_of(s);
    let mut i: usize = 0;
    while i < v.len()
        invariant
            i <= v.len(),
            v@ == s@,
            forall|k: int| 0 <= k < i ==> s@[k] != c,
        decreases v.len() - i,
    {
        if v[i] == c {
            assert(s@[i as int] == c);
            return true;
        }
        i = i + 1;
    }
    false
}

/// What is wrong with target `i`.
fn find_problem(targets: &Vec<TargetSpec>, i: usize) -> (r: Option<String>)
    requires
        i < targets.len(),
    ensures
        r is Some <==> target_problem(targets@, i as int) is Some,
        r matches Some(m) ==> target_problem(targets@, i as int) == Some(m@),
{
    let t = &targets[i];
    let name = t.name.as_str();
    if name.is_empty() {
        return Some(owned("target has empty name"));
    }
    if has_char(name, '/') || has_char(name, ':') {
        return Some(cat3("target name '", name, "' may not contain '/' or ':' (those are label separators)"));
    }
    let mut seen: bool = false;
    let mut j: usize = 0;
    while j < i
        invariant
            j <= i < targets.len(),
            name@ == targets@[i as int].name@,
            seen <==> exists|k: int| 0 <= k < j && (#[trigger] targets@[k]).name@ == name@,
        decreases i - j,
    {
        if str_eq(targets[j].name.as_str(), name) {
            seen = true;
        }
        j = j + 1;
    }
    if seen {
        return Some(cat3("duplicate target name '", name, "' in the same package"));
    }
    if t.command.as_str().is_empty() {
        return Some(cat3("target '", name, "' has empty command"));
    }
    if t.is_cacheable() && t.outputs_raw.len() == 0 && t.exists.is_none() {
        return Some(cat3("target '", name, "' is cacheable but has no outputs and no `exists:` check"));
    }
    None
}

/// The checks on the targets of one file.
pub fn validate_targets(targets: &Vec<TargetSpec>) -> (r: Result<(), ConfigError>)
    ensures
        r is Ok <==> targets_valid(targets@),
        r matches Err(e) ==> (e matches ConfigError::Validation(m) && exists|i: int| #[trigger] first_problem(targets@, i, m@)),
{
    let mut i: usize = 0;
    while i < targets.len()
        invariant
            i <= targets.len(),
            forall|k: int| 0 <= k < i ==> #[trigger] target_problem(targets@, k) is None,
        decreases targets.len() - i,
    {
        match find_problem(targets, i) {
            Some(m) => {
                let e = ConfigError::Validation(m);
                assert(first_problem(targets@, i as int, e->Validation_0@));
                return Err(e);
            },
            None => {},
        }
        i = i + 1;
    }
    Ok(())
}

/// In a file that passed validation no two targets get the same label.
pub proof fn law_valid_labels_distinct(targets: Seq<TargetSpec>, package: Seq<char>, i: int, j: int)
    requires
        targets_valid(targets),
        0 <= i < j < targets.len(),
    ensures
        label_text(package, targets[i].name@) != label_text(package, targets[j].name@),
{
    assert(target_problem(targets, i) is None);
    assert(target_problem(targets, j) is None);
    law_split_label(package, targets[i].name@);
    law_split_label(package, targets[j].name@);
    if label_text(package, targets[i].name@) == label_text(package, targets[j].name@) {
        assert(targets[i].name@ == targets[j].name@);
        assert(named_before(targets, j));
    }
}

/// What is wrong with the workspace-wide part of a root configuration.
pub open spec fn root_problem(c: Config) -> Option<Seq<char>> {
    if c.workspace.name@.len() == 0 {
        Some("workspace.name is required"@)
    } else if !is_workspace_name(c.workspace.name@) {
        Some("workspace.name '"@ + c.workspace.name@ + "' contains invalid characters (use alphanumeric, '-', '_')"@)
    } else if c.schema_version != 1 {
        Some("schema_version "@ + decimal(c.schema_version as nat) + " not supported (only v1 in this build)"@)
    } else {
        None
    }
}

/// Target `i` has a label that an earlier target has.
pub open spec fn label_repeated(targets: Seq<TargetSpec>, i: int) -> bool {
    exists|j: int| 0 <= j < i && (#[trigger] targets[j]).id@ == targets[i].id@
}

/// `i` is the first position whose label is repeated.
pub open spec fn first_repeated(targets: Seq<TargetSpec>, i: int) -> bool {
    &&& 0 <= i < targets.len()
    &&& label_repeated(targets, i)
    &&& forall|k: int| 0 <= k < i ==> !#[trigger] label_repeated(targets, k)
}

impl Config {
    /// The checks on a root configuration.
    pub fn validate_static(&self) -> (r: Result<(), ConfigError>)
        ensures
            r is Ok <==> root_problem(*self) is None && targets_valid(self.targets@),
            r matches Err(e) ==> (e matches ConfigError::Validation(m) && (match root_problem(*self) {
                Some(p) => m@ == p,
                None => exists|i: int| #[trigger] first_problem(self.targets@, i, m@),
            })),
    {
        let name = self.workspace.name.as_str();
        if name.is_empty() {
            return Err(ConfigError::Validation(owned("workspace.name is required")));
        }
        if !is_valid_workspace_name(name) {
            return Err(ConfigError::Validation(cat3("workspace.name '", name, "' contains invalid characters (use alphanumeric, '-', '_')")));
        }
        if self.schema_version != 1 {
            let n = number(self.schema_version as u128);
            return Err(ConfigError::Validation(cat3("schema_version ", n.as_str(), " not supported (only v1 in this build)")));
        }
        validate_targets(&self.targets)
    }

    /// No label may occur twice in the merged configuration.
    pub fn validate_merged(&self) -> (r: Result<(), ConfigError>)
        ensures
            r is Ok <==> crate::graph::spec_ids(self.targets@).no_duplicates(),
            r matches Err(e) ==> (e matches ConfigError::Validation(m) && exists|i: int| #[trigger] first_repeated(self.targets@, i) && m@ == "duplicate target label '"@ + self.targets@[i].id@ + "'"@),
    {
        let ghost ids = crate::graph::spec_ids(self.targets@);
        let mut i: usize = 0;
        while i < self.targets.len()
            invariant
                i <= self.targets.len(),
                ids == crate::graph::spec_ids(self.targets@),
                forall|k: int| 0 <= k < i ==> !#[trigger] label_repeated(self.targets@, k),
            decreases self.targets.len() - i,
        {
            let mut j: usize = 0;
            while j < i
                invariant
                    j <= i < self.targets.len(),
                    ids == crate::graph::spec_ids(self.targets@),
                    forall|k: int| 0 <= k < i ==> !#[trigger] label_repeated(self.targets@, k),
                    forall|k: int| 0 <= k < j ==> (#[trigger] self.targets@[k]).id@ != self.targets@[i as int].id@,
                decreases i - j,
            {
                if self.targets[j].id.same(&self.targets[i].id) {
                    assert(label_repeated(self.targets@, i as int));
                    assert(first_repeated(self.targets@, i as int));
                    assert(ids[j as int] == ids[i as int]);
                    return Err(ConfigError::Validation(cat3("duplicate target label '", self.targets[i].id.as_str(), "'")));
                }
                j = j + 1;
            }
            i = i + 1;
        }
        proof {
            assert forall|a: int, b: int| 0 <= a < ids.len() && 0 <= b < ids.len() && a != b implies ids[a] != ids[b] by {
                if a < b {
                    assert(!label_repeated(self.targets@, b));
                    assert(self.targets@[a].id@ != self.targets@[b].id@);
                } else {
                    assert(!label_repeated(self.targets@, a));
                    assert(self.targets@[b].id@ != self.targets@[a].id@);
                }
            }
        }
        Ok(())
    }
}

/// The input in its package, as text.
pub open spec fn input_resolved(a: Input, package: Seq<char>, b: Input) -> bool {
    match a {
        Input::File { glob } => b matches Input::File { glob: g } && g@ == in_package(package, glob@),
        Input::Fingerprint { .. } => b == a,
    }
}

/// The pattern of an input does not compile once it is resolved.
pub open spec fn input_bad(a: Input, package: Seq<char>) -> bool {
    match a {
        Input::File { glob } => glob_error(in_package(package, glob@)) is Some,
        Input::Fingerprint { .. } => false,
    }
}

/// The working directory as written; unset or empty is the package.
pub open spec fn raw_cwd(t: TargetSpec) -> Seq<char> {
    match t.cwd_raw {
        Some(s) => if s@.len() == 0 {
            "."@
        } else {
            s@
        },
        None => "."@,
    }
}

/// All paths of a target can be resolved.
pub open spec fn resolvable(t: TargetSpec, package: Seq<char>) -> bool {
    &&& forall|i: int| 0 <= i < t.inputs@.len() ==> !input_bad(#[trigger] t.inputs@[i], package)
    &&& forall|i: int| 0 <= i < t.outputs_raw@.len() ==> stays_below(in_package(package, (#[trigger] t.outputs_raw@[i])@))
    &&& stays_below(in_package(package, raw_cwd(t)))
}

/// `r` is `t` with its label and its paths resolved.
pub open spec fn resolved(t: TargetSpec, package: Seq<char>, r: TargetSpec) -> bool {
    &&& r.id@ == label_text(package, t.name@)
    &&& r.deps@.len() == t.deps@.len()
    &&& forall|i: int| 0 <= i < t.deps@.len() ==> (#[trigger] r.deps@[i])@ == dep_label(package, t.deps@[i]@)
    &&& r.inputs@.len() == t.inputs@.len()
    &&& forall|i: int| 0 <= i < t.inputs@.len() ==> input_resolved(t.inputs@[i], package, #[trigger] r.inputs@[i])
    &&& r.outputs@.len() == t.outputs_raw@.len()
    &&& forall|i: int| 0 <= i < t.outputs_raw@.len() ==> (#[trigger] r.outputs@[i])@ == in_package(package, t.outputs_raw@[i]@)
    &&& r.cwd@ == in_package(package, raw_cwd(t))
    &&& r == (TargetSpec { id: r.id, deps: r.deps, inputs: r.inputs, outputs: r.outputs, cwd: r.cwd, ..t })
}

/// The message for a path of a target that cannot be resolved.
pub open spec fn unresolved_text(name: Seq<char>, what: Seq<char>, path: Seq<char>, why: Seq<char>) -> Seq<char> {
    "target '"@ + name + "': invalid "@ + what + " '"@ + path + "': "@ + why
}

fn unresolved(name: &str, what: &str, path: &str, why: &str) -> (r: ConfigError)
    ensures
        r matches ConfigError::Validation(m) && m@ == unresolved_text(name@, what@, path@, why@),
{
    let mut m = cat5("target '", name, "': invalid ", what, " '");
    m.append(path);
    m.append("': ");
    m.append(why);
    ConfigError::Validation(m)
}

/// Why target `t` cannot be resolved: the first bad input, else the first bad
/// output, else the working directory.
pub open spec fn resolve_error(t: TargetSpec, package: Seq<char>, m: Seq<char>) -> bool {
    ||| exists|i: int, e: GlobError| #[trigger] first_bad_input(t, package, i, e) && m == unresolved_text(t.name@, "input glob"@, in_package(package, t.inputs@[i]->glob@), e.text())
    ||| (forall|i: int| 0 <= i < t.inputs@.len() ==> !input_bad(#[trigger] t.inputs@[i], package)) && exists|i: int| #[trigger] first_bad_output(t, package, i) && m == unresolved_text(t.name@, "output"@, in_package(package, t.outputs_raw@[i]@), path_error_text(in_package(package, t.outputs_raw@[i]@)))
    ||| (forall|i: int| 0 <= i < t.inputs@.len() ==> !input_bad(#[trigger] t.inputs@[i], package)) && (forall|i: int| 0 <= i < t.outputs_raw@.len() ==> stays_below(in_package(package, (#[trigger] t.outputs_raw@[i])@))) && !stays_below(in_package(package, raw_cwd(t))) && m == unresolved_text(t.name@, "cwd"@, in_package(package, raw_cwd(t)), path_error_text(in_package(package, raw_cwd(t))))
}

pub open spec fn first_bad_input(t: TargetSpec, package: Seq<char>, i: int, e: GlobError) -> bool {
    &&& 0 <= i < t.inputs@.len()
    &&& t.inputs@[i] is File
    &&& glob_error(in_package(package, t.inputs@[i]->glob@)) == Some(e.model())
    &&& forall|k: int| 0 <= k < i ==> !input_bad(#[trigger] t.inputs@[k], package)
}

pub open spec fn first_bad_output(t: TargetSpec, package: Seq<char>, i: int) -> bool {
    &&& 0 <= i < t.outputs_raw@.len()
    &&& !stays_below(in_package(package, t.outputs_raw@[i]@))
    &&& forall|k: int| 0 <= k < i ==> stays_below(in_package(package, (#[trigger] t.outputs_raw@[k])@))
}

/// Gives a target its label and resolves its dependencies and paths.
pub fn finalize_target(t: TargetSpec, package: &str) -> (r: Result<TargetSpec, ConfigError>)
    ensures
        r is Ok <==> resolvable(t, package@),
        r matches Ok(x) ==> resolved(t, package@, x),
        r matches Err(e) ==> (e matches ConfigError::Validation(m) && resolve_error(t, package@, m@)),
{
    let mut cur = t;
    let n: usize = cur.inputs.len();
    let mut i: usize = 0;
    while i < n
        invariant
            i <= n,
            n == t.inputs@.len(),
            cur.inputs@.len() == n,
            cur == (TargetSpec { inputs: cur.inputs, ..t }),
            forall|k: int| 0 <= k < i ==> input_resolved(t.inputs@[k], package@, #[trigger] cur.inputs@[k]),
            forall|k: int| 0 <= k < i ==> !input_bad(#[trigger] t.inputs@[k], package@),
            forall|k: int| i <= k < n ==> #[trigger] cur.inputs@[k] == t.inputs@[k],
        decreases n - i,
    {
        let fresh: Option<GlobPattern> = match &cur.inputs[i] {
            Input::File { glob } => {
                let text = resolve_in_package(package, glob.as_str());
                match GlobPattern::new(text.as_str()) {
                    Ok(p) => Some(p),
                    Err(e) => {
                        let why = e.message();
                        let err = unresolved(cur.name.as_str(), "input glob", text.as_str(), why.as_str());
                        proof {
                            assert(first_bad_input(t, package@, i as int, e));
                            assert(input_bad(t.inputs@[i as int], package@));
                        }
                        return Err(err);
                    },
                }
            },
            Input::Fingerprint { .. } => None,
        };
        match fresh {
            Some(p) => {
                cur.inputs[i] = Input::File { glob: p };
            },
            None => {},
        }
        assert(input_resolved(t.inputs@[i as int], package@, cur.inputs@[i as int]));
        assert(!input_bad(t.inputs@[i as int], package@));
        i = i + 1;
    }
    let mut outputs: Vec<OutputPath> = Vec::new();
    let mut j: usize = 0;
    while j < cur.outputs_raw.len()
        invariant
            cur == (TargetSpec { inputs: cur.inputs, ..t }),
            j <= t.outputs_raw@.len(),
            outputs.len() == j,
            forall|k: int| 0 <= k < t.inputs@.len() ==> !input_bad(#[trigger] t.inputs@[k], package@),
            forall|k: int| 0 <= k < j ==> stays_below(in_package(package@, (#[trigger] t.outputs_raw@[k])@)),
            forall|k: int| 0 <= k < j ==> (#[trigger] outputs@[k])@ == in_package(package@, t.outputs_raw@[k]@),
        decreases t.outputs_raw@.len() - j,
    {
        let text = resolve_in_package(package, cur.outputs_raw[j].as_str());
        match OutputPath::new(text.as_str()) {
            Ok(p) => {
                outputs.push(p);
            },
            Err(why) => {
                proof {
                    assert(!stays_below(in_package(package@, t.outputs_raw@[j as int]@)));
                    assert(first_bad_output(t, package@, j as int));
                }
                return Err(unresolved(cur.name.as_str(), "output", text.as_str(), why.as_str()));
            },
        }
        j = j + 1;
    }
    let cwd_text = match &cur.cwd_raw {
        Some(s) => if s.as_str().is_empty() {
            resolve_in_package(package, ".")
        } else {
            resolve_in_package(package, s.as_str())
        },
        None => resolve_in_package(package, "."),
    };
    let cwd = match WsRelPath::new(cwd_text.as_str()) {
        Ok(p) => p,
        Err(why) => {
            return Err(unresolved(cur.name.as_str(), "cwd", cwd_text.as_str(), why.as_str()));
        },
    };
    let mut deps: Vec<TargetId> = Vec::new();
    let mut d: usize = 0;
    while d < cur.deps.len()
        invariant
            d <= cur.deps.len(),
            deps.len() == d,
            forall|k: int| 0 <= k < d ==> (#[trigger] deps@[k])@ == dep_label(package@, cur.deps@[k]@),
        decreases cur.deps.len() - d,
    {
        deps.push(resolve_dep_label(package, cur.deps[d].as_str()));
        d = d + 1;
    }
    let id = TargetId::label(package, cur.name.as_str());
    Ok(TargetSpec { id, deps, outputs, cwd, ..cur })
}

/// Every target of a list is resolved.
pub open spec fn all_resolved(a: Seq<TargetSpec>, package: Seq<char>, b: Seq<TargetSpec>) -> bool {
    a.len() == b.len() && forall|i: int| 0 <= i < a.len() ==> #[trigger] resolved(a[i], package, b[i])
}

/// Target `i` is the first that cannot be resolved, for the reason `m`.
pub open spec fn first_unresolvable(targets: Seq<TargetSpec>, package: Seq<char>, i: int, m: Seq<char>) -> bool {
    &&& 0 <= i < targets.len()
    &&& resolve_error(targets[i], package, m)
    &&& !resolvable(targets[i], package)
    &&& forall|k: int| 0 <= k < i ==> resolvable(#[trigger] targets[k], package)
}

/// All targets can be resolved.
pub open spec fn all_resolvable(targets: Seq<TargetSpec>, package: Seq<char>) -> bool {
    forall|k: int| 0 <= k < targets.len() ==> resolvable(#[trigger] targets[k], package)
}

/// Resolves the targets of one package.
pub fn finalize_targets(targets: Vec<TargetSpec>, package: &str) -> (r: Result<Vec<TargetSpec>, ConfigError>)
    ensures
        r is Ok <==> all_resolvable(targets@, package@),
        r matches Ok(v) ==> all_resolved(targets@, package@, v@),
        r matches Err(e) ==> (e matches ConfigError::Validation(m) && exists|i: int| #[trigger] first_unresolvable(targets@, package@, i, m@)),
{
    let mut out: Vec<TargetSpec> = Vec::new();
    for t in it: targets.into_iter()
        invariant
            it.seq() == targets@,
            out.len() == it.index(),
            forall|k: int| 0 <= k < it.index() ==> #[trigger] resolved(targets@[k], package@, out@[k]),
            forall|k: int| 0 <= k < it.index() ==> resolvable(#[trigger] targets@[k], package@),
    {
        let ghost i = it.index() as int;
        assert(targets@[i] == t);
        match finalize_target(t, package) {
            Ok(x) => {
                out.push(x);
            },
            Err(e) => {
                assert(first_unresolvable(targets@, package@, i, e->Validation_0@));
                return Err(e);
            },
        }
    }
    Ok(out)
}

impl Config {
    /// A configuration file that stands alone: checked, with its targets in the
    /// root package.
    pub fn finish(self) -> (r: Result<Config, ConfigError>)
        ensures
            r is Ok <==> root_problem(self) is None && targets_valid(self.targets@) && all_resolvable(self.targets@, Seq::<char>::empty()),
            r matches Ok(c) ==> all_resolved(self.targets@, Seq::<char>::empty(), c.targets@) && c == (Config { targets: c.targets, ..self }),
            r matches Err(e) ==> (e matches ConfigError::Validation(m) && (match root_problem(self) {
                Some(p) => m@ == p,
                None => if targets_valid(self.targets@) {
                    exists|i: int| #[trigger] first_unresolvable(self.targets@, Seq::<char>::empty(), i, m@)
                } else {
                    exists|i: int| #[trigger] first_problem(self.targets@, i, m@)
                },
            })),
    {
        match self.validate_static() {
            Err(e) => {
                return Err(e);
            },
            Ok(()) => {},
        }
        proof {
            reveal_strlit("");
            assert(""@ == Seq::<char>::empty());
        }
        match finalize_targets(self.targets, "") {
            Err(e) => Err(e),
            Ok(targets) => Ok(Config { targets, ..self }),
        }
    }

    /// Adds the targets of a package file at `path`. An error leaves the
    /// configuration as it was.
    pub fn add_package(&mut self, path: &str, package: &str, targets: Vec<TargetSpec>) -> (r: Result<(), ConfigError>)
        ensures
            r is Ok <==> targets_valid(targets@) && all_resolvable(targets@, package@),
            r is Err ==> *final(self) == *old(self),
            r is Ok ==> {
                &&& *final(self) == (Config { targets: final(self).targets, ..*old(self) })
                &&& final(self).targets@.len() == old(self).targets@.len() + targets@.len()
                &&& final(self).targets@.take(old(self).targets@.len() as int) == old(self).targets@
                &&& all_resolved(targets@, package@, final(self).targets@.skip(old(self).targets@.len() as int))
            },
            r matches Err(e) ==> (e matches ConfigError::Validation(m) && {
                ||| !targets_valid(targets@) && exists|i: int, p: Seq<char>| #[trigger] first_problem(targets@, i, p) && m@ == path@ + ": "@ + ("validation: "@ + p)
                ||| targets_valid(targets@) && exists|i: int| #[trigger] first_unresolvable(targets@, package@, i, m@)
            }),
    {
        match validate_targets(&targets) {
            Err(e) => {
                let text = e.message();
                let m = cat3(path, ": ", text.as_str());
                proof {
                    let p = e->Validation_0@;
                    let i = choose|i: int| #[trigger] first_problem(targets@, i, p);
                    assert(first_problem(targets@, i, p));
                    assert(!(target_problem(targets@, i) is None));
                }
                return Err(ConfigError::Validation(m));
            },
            Ok(()) => {},
        }
        match finalize_targets(targets, package) {
            Err(e) => Err(e),
            Ok(mut more) => {
                let ghost extra = more@;
                let ghost before = self.targets@;
                self.targets.append(&mut more);
                assert(self.targets@ == before + extra);
                assert(self.targets@.take(before.len() as int) == before);
                assert(self.targets@.skip(before.len() as int) == extra);
                Ok(())
            },
        }
    }
}

/// `k` may only stand in the root configuration.
pub open spec fn is_root_only(k: Seq<char>) -> bool {
    k == "workspace"@ || k == "cache"@ || k == "remote"@ || k == "dispatch"@ || k == "state"@ || k == "schema_version"@
}

fn root_only(k: &str) -> (r: bool)
    ensures
        r == is_root_only(k@),
{
    str_eq(k, "workspace") || str_eq(k, "cache") || str_eq(k, "remote") || str_eq(k, "dispatch") || str_eq(k, "state") || str_eq(k, "schema_version")
}

/// `i` is the first key that may only stand in the root configuration.
pub open spec fn first_root_only(keys: Seq<Seq<char>>, i: int) -> bool {
    0 <= i < keys.len() && is_root_only(keys[i]) && forall|k: int| 0 <= k < i ==> !is_root_only(#[trigger] keys[k])
}

/// Refuses a package file with a section that belongs to the root. `keys` are
/// the file's top-level keys; the first of them in order is named.
pub fn reject_root_only_sections(path: &str, keys: &Vec<String>) -> (r: Result<(), ConfigError>)
    ensures
        r is Ok <==> forall|i: int| 0 <= i < keys@.len() ==> !is_root_only(#[trigger] strs(keys@)[i]),
        r matches Err(e) ==> (e matches ConfigError::Validation(m) && exists|i: int| #[trigger] first_root_only(crate::order::sorted_strs(strs(keys@)), i) && m@ == path@ + ": '"@ + crate::order::sorted_strs(strs(keys@))[i] + ":' is only valid in the workspace-root config, not a package config"@),
{
    let sorted = crate::order::sort_strings(keys);
    let ghost kv = strs(keys@);
    let ghost sv = strs(sorted@);
    let mut i: usize = 0;
    while i < sorted.len()
        invariant
            i <= sorted.len(),
            sv == strs(sorted@),
            kv == strs(keys@),
            sv == crate::order::sorted_strs(kv),
            forall|x: Seq<char>| sv.contains(x) <==> kv.contains(x),
            forall|k: int| 0 <= k < i ==> !is_root_only(#[trigger] sv[k]),
        decreases sorted.len() - i,
    {
        assert(sv[i as int] == sorted@[i as int]@);
        if root_only(sorted[i].as_str()) {
            proof {
                assert(first_root_only(sv, i as int));
                assert(sv.contains(sv[i as int]));
                assert(kv.contains(sv[i as int]));
                let j = choose|j: int| 0 <= j < kv.len() && kv[j] == sv[i as int];
                assert(is_root_only(kv[j]));
            }
            return Err(ConfigError::Validation(cat4(path, ": '", sorted[i].as_str(), ":' is only valid in the workspace-root config, not a package config")));
        }
        i = i + 1;
    }
    proof {
        assert forall|j: int| 0 <= j < kv.len() implies !is_root_only(#[trigger] kv[j]) by {
            assert(kv.contains(kv[j]));
            assert(sv.contains(kv[j]));
            let k = choose|k: int| 0 <= k < sv.len() && sv[k] == kv[j];
            assert(!is_root_only(sv[k]));
        }
    }
    Ok(())
}

/// `s` with every backslash as a slash.
pub open spec fn slashes(s: Seq<char>) -> Seq<char> {
    s.map_values(|c: char| if c == '\\' { '/' } else { c })
}

/// The package of a file: its directory below the workspace root, with slashes.
pub fn package_of(dir: &str) -> (r: String)
    ensures
        r@ == slashes(dir@),
{
    let v = chars_of(dir);
    let mut s = String::new();
    let mut i: usize = 0;
    while i < v.len()
        invariant
            i <= v.len(),
            v@ == dir@,
            s@ == slashes(dir@.take(i as int)),
        decreases v.len() - i,
    {
        let c = v[i];
        let ghost before = s@;
        if c == '\\' {
            s.push('/');
        } else {
            s.push(c);
        }
        assert(dir@.take(i + 1) == dir@.take(i as int).push(dir@[i as int]));
        assert(s@ == slashes(dir@.take(i + 1)));
        i = i + 1;
    }
    assert(dir@.take(i as int) == dir@);
    s
}

/// Whether a file of this name holds configuration.
pub fn is_config_name(name: &str) -> (r: bool)
    ensures
        r == (name@ == "giant.yaml"@ || name@ == "giant.yml"@ || name@ == "giant.json"@),
{
    str_eq(name, "giant.yaml") || str_eq(name, "giant.yml") || str_eq(name, "giant.json")
}

/// Where a directory's configuration may stand, in order of preference.
pub fn config_candidates(dir: &str) -> (r: Vec<String>)
    ensures
        strs(r@) == seq![crate::paths::joined(dir@, "giant.yaml"@), crate::paths::joined(dir@, "giant.yml"@), crate::paths::joined(dir@, "giant.json"@)],
{
    let mut out: Vec<String> = Vec::new();
    out.push(path_join(dir, "giant.yaml"));
    out.push(path_join(dir, "giant.yml"));
    out.push(path_join(dir, "giant.json"));
    assert(strs(out@) =~= seq![crate::paths::joined(dir@, "giant.yaml"@), crate::paths::joined(dir@, "giant.yml"@), crate::paths::joined(dir@, "giant.json"@)]);
    out
}

/// The configuration file of a directory: the first candidate that is a file.
pub fn find_config_in_dir(dir: &str, is_file: &Vec<bool>) -> (r: Option<String>)
    requires
        is_file.len() == 3,
    ensures
        r is None <==> !is_file@[0] && !is_file@[1] && !is_file@[2],
        r matches Some(p) ==> p@ == crate::paths::joined(dir@, if is_file@[0] { "giant.yaml"@ } else if is_file@[1] { "giant.yml"@ } else { "giant.json"@ }),
{
    if is_file[0] {
        Some(path_join(dir, "giant.yaml"))
    } else if is_file[1] {
        Some(path_join(dir, "giant.yml"))
    } else if is_file[2] {
        Some(path_join(dir, "giant.json"))
    } else {
        None
    }
}

/// The configuration file of a directory, by which of its candidates are files.
pub open spec fn config_of(dir: Seq<char>, is_file: Seq<bool>) -> Option<Seq<char>> {
    if is_file[0] {
        Some(crate::paths::joined(dir, "giant.yaml"@))
    } else if is_file[1] {
        Some(crate::paths::joined(dir, "giant.yml"@))
    } else if is_file[2] {
        Some(crate::paths::joined(dir, "giant.json"@))
    } else {
        None
    }
}

/// The configuration file of the first directory that has one.
pub open spec fn first_config(dirs: Seq<Seq<char>>, is_file: Seq<Vec<bool>>) -> Option<Seq<char>>
    decreases dirs.len(),
{
    if dirs.len() == 0 {
        None
    } else {
        match config_of(dirs[0], is_file[0]@) {
            Some(p) => Some(p),
            None => first_config(dirs.drop_first(), is_file.drop_first()),
        }
    }
}

/// Looks for a configuration file in a directory and those above it, nearest
/// first.
pub fn find_config_upward(dirs: &Vec<String>, is_file: &Vec<Vec<bool>>) -> (r: Option<String>)
    requires
        dirs.len() == is_file.len(),
        forall|k: int| 0 <= k < is_file.len() ==> (#[trigger] is_file@[k]).len() == 3,
    ensures
        match r {
            Some(p) => first_config(strs(dirs@), is_file@) == Some(p@),
            None => first_config(strs(dirs@), is_file@) is None,
        },
{
    let ghost dv = strs(dirs@);
    let ghost fv = is_file@;
    let mut i: usize = 0;
    assert(dv.skip(0) == dv && fv.skip(0) == fv);
    while i < dirs.len()
        invariant
            i <= dirs.len(),
            dv == strs(dirs@),
            fv == is_file@,
            dirs.len() == is_file.len(),
            forall|k: int| 0 <= k < is_file.len() ==> (#[trigger] is_file@[k]).len() == 3,
            first_config(dv, fv) == first_config(dv.skip(i as int), fv.skip(i as int)),
        decreases dirs.len() - i,
    {
        assert(dv.skip(i as int).drop_first() == dv.skip(i + 1));
        assert(fv.skip(i as int).drop_first() == fv.skip(i + 1));
        assert(dv.skip(i as int)[0] == dirs@[i as int]@);
        if let Some(p) = find_config_in_dir(dirs[i].as_str(), &is_file[i]) {
            return Some(p);
        }
        i = i + 1;
    }
    None
}

/// Whether a configuration with this `workspace.name`, if it could be read at
/// all, marks the root of a workspace.
pub fn config_declares_workspace(name: &Option<String>) -> (r: bool)
    ensures
        r <==> (name matches Some(n) && n@.len() > 0),
{
    match name {
        Some(n) => !n.as_str().is_empty(),
        None => false,
    }
}

/// The root of the workspace: the nearest of the directories whose
/// configuration marks one. `names` holds the `workspace.name` of each
/// directory's configuration, where there is one that can be read.
pub fn find_workspace_root(dirs: &Vec<String>, names: &Vec<Option<String>>) -> (r: Result<String, ConfigError>)
    requires
        dirs.len() == names.len(),
    ensures
        r matches Ok(d) ==> exists|i: int| #[trigger] nearest_root(names@, i) && d@ == dirs@[i]@,
        r matches Err(e) ==> e is NotFound,
        r is Err <==> forall|i: int| 0 <= i < names@.len() ==> !marks_root(#[trigger] names@[i]),
{
    let mut i: usize = 0;
    while i < dirs.len()
        invariant
            i <= dirs.len(),
            dirs.len() == names.len(),
            forall|k: int| 0 <= k < i ==> !marks_root(#[trigger] names@[k]),
        decreases dirs.len() - i,
    {
        if config_declares_workspace(&names[i]) {
            assert(nearest_root(names@, i as int));
            return Ok(dirs[i].clone());
        }
        i = i + 1;
    }
    Err(ConfigError::NotFound)
}

/// A `workspace.name` that marks the root.
pub open spec fn marks_root(name: Option<String>) -> bool {
    name matches Some(n) && n@.len() > 0
}

/// `i` is the first directory whose configuration marks the root.
pub open spec fn nearest_root(names: Seq<Option<String>>, i: int) -> bool {
    0 <= i < names.len() && marks_root(names[i]) && forall|k: int| 0 <= k < i ==> !marks_root(#[trigger] names[k])
}

/// The table to dispatch by: the one that was read, or else the default.
pub fn dispatch_or_default(read: Option<DispatchConfig>) -> (r: DispatchConfig)
    ensures
        match read {
            Some(d) => r == d,
            None => r.unknown matches UnknownRoute::One(s) && s@ == "giant-task"@,
        },
{
    match read {
        Some(d) => d,
        None => DispatchConfig::default(),
    }
}

/// The path's file name ends in `.json`, with something before it.
pub open spec fn is_json_path(path: Seq<char>) -> bool {
    let parts = crate::paths::components(path);
    parts.len() > 0 && has_suffix(parts.last(), ".json"@) && parts.last().len() > ".json"@.len()
}

fn json_path(path: &str) -> (r: bool)
    ensures
        r == is_json_path(path@),
{
    let parts = crate::paths::path_components(path);
    let n: usize = parts.len();
    assert(strs(parts@).len() == n);
    if n == 0 {
        return false;
    }
    let name = parts[n - 1].as_str();
    proof {
        let p = ".json"@;
        assert(strs(parts@).last() == name@);
        if has_suffix(name@, p) && name@.len() == p.len() {
            assert(name@ == name@.skip(0));
        }
    }
    ends_with(name, ".json") && !str_eq(name, ".json")
}

/// The top-level keys that `serde_json::from_str` finds in a text, in ascending
/// order, or what it objects to.
pub uninterp spec fn json_keys(raw: Seq<char>) -> Result<Seq<Seq<char>>, Seq<char>>;

/// The top-level keys that `serde_yaml_ng::from_str` finds in a text, in
/// ascending order, or what it objects to.
pub uninterp spec fn yaml_keys(raw: Seq<char>) -> Result<Seq<Seq<char>>, Seq<char>>;

/// Keys, or what is wrong with a text, by their views.
pub open spec fn keys_view(r: Result<Vec<String>, String>) -> Result<Seq<Seq<char>>, Seq<char>> {
    match r {
        Ok(v) => Ok(strs(v@)),
        Err(e) => Err(e@),
    }
}

/// `serde_json::from_str` into a map whose values are passed over. Trusted: the
/// keys, or the error's text, are a function of the text, and the map lists its
/// keys in ascending order.
#[verifier::external_body]
fn parse_json_keys(raw: &str) -> (r: Result<Vec<String>, String>)
    ensures
        keys_view(r) == json_keys(raw@),
        r matches Ok(v) ==> crate::order::ascending(strs(v@)),
{
    serde_json::from_str::<std::collections::BTreeMap<String, serde::de::IgnoredAny>>(raw)
        .map(|m| m.into_keys().collect())
        .map_err(|e| e.to_string())
}

/// `serde_yaml_ng::from_str` into a map whose values are passed over. Trusted:
/// the keys, or the error's text, are a function of the text, and the map lists
/// its keys in ascending order.
#[verifier::external_body]
fn parse_yaml_keys(raw: &str) -> (r: Result<Vec<String>, String>)
    ensures
        keys_view(r) == yaml_keys(raw@),
        r matches Ok(v) ==> crate::order::ascending(strs(v@)),
{
    serde_yaml_ng::from_str::<std::collections::BTreeMap<String, serde::de::IgnoredAny>>(raw)
        .map(|m| m.into_keys().collect())
        .map_err(|e| e.to_string())
}

/// `r` are the top-level keys of the text of the file at `path`, or the error
/// of its format.
pub open spec fn keys_of_text(path: Seq<char>, raw: Seq<char>, r: Result<Vec<String>, ConfigError>) -> bool {
    if is_json_path(path) {
        match json_keys(raw) {
            Ok(k) => r matches Ok(v) && strs(v@) == k,
            Err(m) => r matches Err(ConfigError::Json(e)) && e@ == m,
        }
    } else {
        match yaml_keys(raw) {
            Ok(k) => r matches Ok(v) && strs(v@) == k,
            Err(m) => r matches Err(ConfigError::Yaml(e)) && e@ == m,
        }
    }
}

/// The top-level keys of a configuration file, in ascending order.
pub fn package_keys(path: &str, raw: &str) -> (r: Result<Vec<String>, ConfigError>)
    ensures
        keys_of_text(path@, raw@, r),
        r matches Ok(v) ==> crate::order::ascending(strs(v@)),
{
    if json_path(path) {
        match parse_json_keys(raw) {
            Ok(keys) => Ok(keys),
            Err(e) => Err(ConfigError::Json(e)),
        }
    } else {
        match parse_yaml_keys(raw) {
            Ok(keys) => Ok(keys),
            Err(e) => Err(ConfigError::Yaml(e)),
        }
    }
}

/// What was read of a package's configuration file.
#[derive(Debug)]
pub struct PackageFile {
    pub path: String,
    /// The file's directory below the workspace root.
    pub dir: String,
    /// Its top-level keys.
    pub keys: Result<Vec<String>, ConfigError>,
    pub targets: Result<Vec<TargetSpec>, ConfigError>,
}

impl PackageFile {
    /// A package file with the keys of its text; `raw` is the text, or why it
    /// could not be read.
    pub fn read(path: String, dir: String, raw: Result<String, ConfigError>, targets: Result<Vec<TargetSpec>, ConfigError>) -> (r: PackageFile)
        ensures
            r.path == path,
            r.dir == dir,
            r.targets == targets,
            match raw {
                Ok(text) => keys_of_text(path@, text@, r.keys),
                Err(e) => r.keys == Err::<Vec<String>, ConfigError>(e),
            },
    {
        let keys = match raw {
            Ok(text) => package_keys(path.as_str(), text.as_str()),
            Err(e) => Err(e),
        };
        PackageFile { path, dir, keys, targets }
    }
}

/// No key belongs to the root.
pub open spec fn keys_allowed(keys: Seq<String>) -> bool {
    forall|i: int| 0 <= i < keys.len() ==> !is_root_only(#[trigger] strs(keys)[i])
}

/// A package file can be merged.
pub open spec fn package_fits(p: PackageFile) -> bool {
    &&& p.keys is Ok
    &&& keys_allowed(p.keys->Ok_0@)
    &&& p.targets is Ok
    &&& targets_valid(p.targets->Ok_0@)
    &&& all_resolvable(p.targets->Ok_0@, slashes(p.dir@))
}

/// Why a package file cannot be merged.
pub open spec fn package_error(p: PackageFile, e: ConfigError) -> bool {
    if p.keys is Err {
        e == p.keys->Err_0
    } else if !keys_allowed(p.keys->Ok_0@) {
        let sorted = crate::order::sorted_strs(strs(p.keys->Ok_0@));
        e matches ConfigError::Validation(m) && exists|i: int| #[trigger] first_root_only(sorted, i) && m@ == p.path@ + ": '"@ + sorted[i] + ":' is only valid in the workspace-root config, not a package config"@
    } else if p.targets is Err {
        e == p.targets->Err_0
    } else if !targets_valid(p.targets->Ok_0@) {
        e matches ConfigError::Validation(m) && exists|i: int, q: Seq<char>| #[trigger] first_problem(p.targets->Ok_0@, i, q) && m@ == p.path@ + ": "@ + ("validation: "@ + q)
    } else {
        e matches ConfigError::Validation(m) && exists|i: int| #[trigger] first_unresolvable(p.targets->Ok_0@, slashes(p.dir@), i, m@)
    }
}

/// `i` is the first package file that cannot be merged, for the reason `e`.
pub open spec fn first_misfit(packages: Seq<PackageFile>, i: int, e: ConfigError) -> bool {
    &&& 0 <= i < packages.len()
    &&& !package_fits(packages[i])
    &&& package_error(packages[i], e)
    &&& forall|k: int| 0 <= k < i ==> package_fits(#[trigger] packages[k])
}

/// `all` are the targets of the root, resolved, and behind them those of each
/// package, resolved in it.
pub open spec fn merged(root: Seq<TargetSpec>, packages: Seq<PackageFile>, all: Seq<TargetSpec>) -> bool
    decreases packages.len(),
{
    if packages.len() == 0 {
        all_resolved(root, Seq::<char>::empty(), all)
    } else {
        let p = packages.last();
        let n = all.len() - p.targets->Ok_0@.len();
        &&& n >= 0
        &&& merged(root, packages.drop_last(), all.take(n))
        &&& all_resolved(p.targets->Ok_0@, slashes(p.dir@), all.skip(n))
    }
}

/// The labels of the targets of one package.
pub open spec fn labels_in(targets: Seq<TargetSpec>, package: Seq<char>) -> Seq<Seq<char>> {
    targets.map_values(|t: TargetSpec| label_text(package, t.name@))
}

/// The labels of the whole workspace.
pub open spec fn merged_labels(root: Seq<TargetSpec>, packages: Seq<PackageFile>) -> Seq<Seq<char>>
    decreases packages.len(),
{
    if packages.len() == 0 {
        labels_in(root, Seq::<char>::empty())
    } else {
        merged_labels(root, packages.drop_last()) + labels_in(packages.last().targets->Ok_0@, slashes(packages.last().dir@))
    }
}

/// `i` is the first label that occurred before.
pub open spec fn first_again(labels: Seq<Seq<char>>, i: int) -> bool {
    &&& 0 <= i < labels.len()
    &&& labels.take(i).contains(labels[i])
    &&& forall|k: int| 0 <= k < i ==> !(#[trigger] labels.take(k)).contains(labels[k])
}

/// The labels of a merged workspace.
proof fn lemma_merged_labels(root: Seq<TargetSpec>, packages: Seq<PackageFile>, all: Seq<TargetSpec>)
    requires
        merged(root, packages, all),
    ensures
        crate::graph::spec_ids(all) == merged_labels(root, packages),
    decreases packages.len(),
{
    let ids = crate::graph::spec_ids(all);
    if packages.len() == 0 {
        let e = Seq::<char>::empty();
        assert forall|i: int| 0 <= i < ids.len() implies ids[i] == labels_in(root, e)[i] by {
            assert(resolved(root[i], e, all[i]));
        }
        assert(ids =~= labels_in(root, e));
    } else {
        let p = packages.last();
        let ts = p.targets->Ok_0@;
        let n = all.len() - ts.len();
        lemma_merged_labels(root, packages.drop_last(), all.take(n));
        let front = crate::graph::spec_ids(all.take(n));
        let back = labels_in(ts, slashes(p.dir@));
        assert forall|i: int| 0 <= i < ids.len() implies ids[i] == (front + back)[i] by {
            if i < n {
                assert(all.take(n)[i] == all[i]);
            } else {
                assert(resolved(ts[i - n], slashes(p.dir@), all.skip(n)[i - n]));
                assert(all.skip(n)[i - n] == all[i]);
            }
        }
        assert(ids =~= front + back);
    }
}

/// Where a label of the targets is repeated, so it is among the labels.
proof fn lemma_first_again(targets: Seq<TargetSpec>, i: int)
    requires
        first_repeated(targets, i),
    ensures
        first_again(crate::graph::spec_ids(targets), i),
{
    let ids = crate::graph::spec_ids(targets);
    let j = choose|j: int| 0 <= j < i && (#[trigger] targets[j]).id@ == targets[i].id@;
    assert(ids.take(i)[j] == ids[i]);
    assert forall|k: int| 0 <= k < i implies !(#[trigger] ids.take(k)).contains(ids[k]) by {
        assert(!label_repeated(targets, k));
        if ids.take(k).contains(ids[k]) {
            let a = choose|a: int| 0 <= a < ids.take(k).len() && ids.take(k)[a] == ids[k];
            assert(targets[a].id@ == targets[k].id@);
        }
    }
}

impl Config {
    /// Merges the packages of a workspace into its root configuration. The
    /// targets of each package get its labels and paths; no label may occur
    /// twice.
    pub fn scan(self, packages: Vec<PackageFile>) -> (r: Result<Config, ConfigError>)
        ensures
            r is Ok <==> {
                &&& root_problem(self) is None
                &&& targets_valid(self.targets@)
                &&& all_resolvable(self.targets@, Seq::<char>::empty())
                &&& forall|i: int| 0 <= i < packages@.len() ==> package_fits(#[trigger] packages@[i])
                &&& merged_labels(self.targets@, packages@).no_duplicates()
            },
            r matches Ok(c) ==> merged(self.targets@, packages@, c.targets@) && c == (Config { targets: c.targets, ..self }),
            r matches Err(e) ==> if root_problem(self) is Some {
                e matches ConfigError::Validation(m) && root_problem(self) == Some(m@)
            } else if !targets_valid(self.targets@) {
                e matches ConfigError::Validation(m) && exists|i: int| #[trigger] first_problem(self.targets@, i, m@)
            } else if !all_resolvable(self.targets@, Seq::<char>::empty()) {
                e matches ConfigError::Validation(m) && exists|i: int| #[trigger] first_unresolvable(self.targets@, Seq::<char>::empty(), i, m@)
            } else {
                ||| exists|i: int| #[trigger] first_misfit(packages@, i, e)
                ||| (forall|i: int| 0 <= i < packages@.len() ==> package_fits(#[trigger] packages@[i])) && (e matches ConfigError::Validation(m) && exists|i: int|
                    #[trigger] first_again(merged_labels(self.targets@, packages@), i) && m@ == "duplicate target label '"@ + merged_labels(self.targets@, packages@)[i] + "'"@)
            },
    {
        let ghost root = self;
        let ghost pv = packages@;
        let mut cfg = match self.finish() {
            Ok(c) => c,
            Err(e) => {
                return Err(e);
            },
        };
        assert(pv.take(0) =~= Seq::<PackageFile>::empty());
        for p in it: packages.into_iter()
            invariant
                it.seq() == packages@,
                pv == packages@,
                root == self,
                root_problem(root) is None && targets_valid(root.targets@) && all_resolvable(root.targets@, Seq::<char>::empty()),
                cfg == (Config { targets: cfg.targets, ..root }),
                merged(root.targets@, pv.take(it.index() as int), cfg.targets@),
                forall|k: int| 0 <= k < it.index() ==> package_fits(#[trigger] pv[k]),
        {
            let ghost i = it.index() as int;
            let ghost before = cfg.targets@;
            assert(pv[i] == p);
            assert(pv.take(i + 1).drop_last() == pv.take(i));
            assert(pv.take(i + 1).last() == p);
            let keys = match p.keys {
                Ok(k) => k,
                Err(e) => {
                    assert(first_misfit(pv, i, e));
                    return Err(e);
                },
            };
            match reject_root_only_sections(p.path.as_str(), &keys) {
                Ok(()) => {},
                Err(e) => {
                    assert(!keys_allowed(keys@));
                    assert(first_misfit(pv, i, e));
                    return Err(e);
                },
            }
            let targets = match p.targets {
                Ok(t) => t,
                Err(e) => {
                    assert(first_misfit(pv, i, e));
                    return Err(e);
                },
            };
            let ghost tv = targets@;
            let package = package_of(p.dir.as_str());
            match cfg.add_package(p.path.as_str(), package.as_str(), targets) {
                Ok(()) => {},
                Err(e) => {
                    assert(package_error(pv[i], e));
                    assert(first_misfit(pv, i, e));
                    return Err(e);
                },
            }
            proof {
                let all = cfg.targets@;
                assert(all.len() - tv.len() == before.len());
                assert(merged(root.targets@, pv.take(i + 1), all));
            }
        }
        assert(pv.take(pv.len() as int) == pv);
        proof {
            lemma_merged_labels(root.targets@, pv, cfg.targets@);
        }
        match cfg.validate_merged() {
            Ok(()) => Ok(cfg),
            Err(e) => {
                proof {
                    let i = choose|i: int| #[trigger] first_repeated(cfg.targets@, i) && e->Validation_0@ == "duplicate target label '"@ + cfg.targets@[i].id@ + "'"@;
                    lemma_first_again(cfg.targets@, i);
                    assert(first_again(merged_labels(root.targets@, pv), i));
                }
                Err(e)
            },
        }
    }
}

/// A file that was met in the workspace. The name is `None` where it is no
/// text.
#[derive(Debug)]
pub struct ScannedFile {
    pub path: String,
    pub name: Option<String>,
    pub is_file: bool,
}

/// The file holds the configuration of a package.
pub open spec fn is_package_file(f: ScannedFile, root_path: Seq<char>) -> bool {
    &&& f.is_file
    &&& f.name matches Some(n) && (n@ == "giant.yaml"@ || n@ == "giant.yml"@ || n@ == "giant.json"@)
    &&& crate::paths::components(f.path@) != crate::paths::components(root_path)
}

/// The files that hold the configuration of a package, as they were met.
pub open spec fn package_files_of(files: Seq<ScannedFile>, root_path: Seq<char>) -> Seq<Seq<char>>
    decreases files.len(),
{
    if files.len() == 0 {
        Seq::<Seq<char>>::empty()
    } else {
        let rest = package_files_of(files.drop_last(), root_path);
        if is_package_file(files.last(), root_path) {
            rest.push(files.last().path@)
        } else {
            rest
        }
    }
}

/// The configuration files of the workspace's packages: all that were met but
/// the root's.
pub fn scan_config_files(files: &Vec<ScannedFile>, root_path: &str) -> (r: Vec<String>)
    ensures
        strs(r@) == package_files_of(files@, root_path@),
{
    let mut out: Vec<String> = Vec::new();
    let mut i: usize = 0;
    assert(strs(out@) == package_files_of(files@.take(0), root_path@));
    while i < files.len()
        invariant
            i <= files.len(),
            strs(out@) == package_files_of(files@.take(i as int), root_path@),
        decreases files.len() - i,
    {
        let ghost before = strs(out@);
        assert(files@.take(i + 1).drop_last() == files@.take(i as int));
        assert(files@.take(i + 1).last() == files@[i as int]);
        let named: bool = match &files[i].name {
            Some(n) => is_config_name(n.as_str()),
            None => false,
        };
        if files[i].is_file && named && !crate::paths::same_path(files[i].path.as_str(), root_path) {
            out.push(files[i].path.clone());
            assert(strs(out@) == before.push(files@[i as int].path@));
        }
        i = i + 1;
    }
    assert(files@.take(i as int) == files@);
    out
}

/// Within a package `:name` and `name` are the same target, the one that its
/// full label names from anywhere; a full label stands as it is.
pub proof fn law_dep_forms(package: Seq<char>, other: Seq<char>, name: Seq<char>, dep: Seq<char>)
    requires
        name.len() > 0,
        name[0] != ':',
        name[0] != '/',
    ensures
        dep_label(package, name) == "//"@ + package + ":"@ + name,
        dep_label(package, ":"@ + name) == "//"@ + package + ":"@ + name,
        dep_label(other, "//"@ + package + ":"@ + name) == "//"@ + package + ":"@ + name,
        dep_label(other, dep_label(package, dep)) == dep_label(package, dep),
{
    reveal_strlit("//");
    reveal_strlit(":");
    if has_prefix(name, "//"@) {
        assert(name.take(2)[0] == name[0]);
    }
    if has_prefix(name, ":"@) {
        assert(name.take(1)[0] == name[0]);
    }
    let short = ":"@ + name;
    assert(short.take(1) =~= ":"@);
    assert(short.skip(1) =~= name);
    if has_prefix(short, "//"@) {
        assert(short.take(2)[0] == short[0]);
    }
    let full = "//"@ + package + ":"@ + name;
    assert(full.take(2) =~= "//"@);
    let d = dep_label(package, dep);
    if !has_prefix(dep, "//"@) {
        assert(d.take(2) =~= "//"@);
    }
}

/// A path of a package lies in it: `//x` is `x` from the root of the workspace,
/// `.` is the directory of the package, and any other path is below it.
pub proof fn law_in_package(package: Seq<char>, raw: Seq<char>, x: Seq<char>)
    ensures
        in_package(package, "//"@ + x) == x,
        in_package(package, "."@) == package,
        in_package(Seq::<char>::empty(), x) == x || has_prefix(x, "//"@) || x == "."@,
        package.len() > 0 && !has_prefix(raw, "//"@) && raw != "."@ ==> in_package(package, raw) == package + "/"@ + raw,
        package.len() > 0 && package.last() != '/' && raw.len() > 0 && raw[0] != '/' && (crate::paths::components(raw).len() == 0 || crate::paths::components(raw)[0] != seq!['.']) && raw != "."@ ==> crate::paths::components(in_package(package, raw)) == crate::paths::components(package) + crate::paths::components(raw),
{
    reveal_strlit("//");
    reveal_strlit(".");
    let rooted = "//"@ + x;
    assert(rooted.take(2) =~= "//"@);
    assert(rooted.skip(2) =~= x);
    if has_prefix("."@, "//"@) {
        assert(false);
    }
    if package.len() > 0 && package.last() != '/' && raw.len() > 0 && raw[0] != '/' && (crate::paths::components(raw).len() == 0 || crate::paths::components(raw)[0] != seq!['.']) && raw != "."@ {
        if has_prefix(raw, "//"@) {
            assert(raw.take(2)[0] == raw[0]);
        }
        crate::paths::law_joined(package, raw);
        assert(in_package(package, raw) == crate::paths::joined(package, raw));
    }
}

/// A resolved target is the one that was written, in its package: its label
/// names the package, and what it reads, writes and runs in is resolved there.
pub proof fn law_resolved_in_package(t: TargetSpec, package: Seq<char>, r: TargetSpec, i: int)
    requires
        resolved(t, package, r),
        package.len() > 0,
    ensures
        r.id@ == "//"@ + package + ":"@ + t.name@,
        r.command == t.command && r.env == t.env && r.tags == t.tags && r.test == t.test && r.cache == t.cache && r.network == t.network && r.timeout_secs == t.timeout_secs && r.exists == t.exists && r.scope == t.scope,
        r.outputs@.len() == t.outputs_raw@.len() && r.inputs@.len() == t.inputs@.len() && r.deps@.len() == t.deps@.len(),
        0 <= i < t.outputs_raw@.len() && !has_prefix(t.outputs_raw@[i]@, "//"@) && t.outputs_raw@[i]@ != "."@ ==> r.outputs@[i]@ == package + "/"@ + t.outputs_raw@[i]@,
        0 <= i < t.inputs@.len() && (t.inputs@[i] matches Input::File { glob } && !has_prefix(glob@, "//"@) && glob@ != "."@) ==> (r.inputs@[i] matches Input::File { glob: g } && g@ == package + "/"@ + t.inputs@[i]->glob@),
        t.cwd_raw is None ==> r.cwd@ == package,
        t.cwd_raw matches Some(s) ==> s@.len() > 0 && !has_prefix(s@, "//"@) && s@ != "."@ ==> r.cwd@ == package + "/"@ + s@,
{
    law_in_package(package, Seq::<char>::empty(), Seq::<char>::empty());
    if 0 <= i < t.outputs_raw@.len() {
        law_in_package(package, t.outputs_raw@[i]@, Seq::<char>::empty());
        assert(r.outputs@[i]@ == in_package(package, t.outputs_raw@[i]@));
    }
    if 0 <= i < t.inputs@.len() {
        assert(input_resolved(t.inputs@[i], package, r.inputs@[i]));
        if t.inputs@[i] is File {
            law_in_package(package, t.inputs@[i]->glob@, Seq::<char>::empty());
        }
    }
    if let Some(s) = t.cwd_raw {
        law_in_package(package, s@, Seq::<char>::empty());
    }
}

/// A file passes validation exactly if every target has a name without label
/// separators that no earlier one has, a command, and, where it takes part in
/// the cache, outputs or an existence check.
pub proof fn law_valid_targets(targets: Seq<TargetSpec>)
    ensures
        targets_valid(targets) <==> forall|i: int|
            0 <= i < targets.len() ==> {
                let t = #[trigger] targets[i];
                &&& t.name@.len() > 0 && !t.name@.contains('/') && !t.name@.contains(':')
                &&& t.command@.len() > 0
                &&& (t.cache == Some(true) || (t.cache is None && !t.test)) ==> t.outputs_raw@.len() > 0 || t.exists is Some
                &&& forall|j: int| 0 <= j < i ==> (#[trigger] targets[j]).name@ != t.name@
            },
{
    if targets_valid(targets) {
        assert forall|i: int| 0 <= i < targets.len() implies {
            let t = #[trigger] targets[i];
            &&& t.name@.len() > 0 && !t.name@.contains('/') && !t.name@.contains(':')
            &&& t.command@.len() > 0
            &&& (t.cache == Some(true) || (t.cache is None && !t.test)) ==> t.outputs_raw@.len() > 0 || t.exists is Some
            &&& forall|j: int| 0 <= j < i ==> (#[trigger] targets[j]).name@ != t.name@
        } by {
            assert(target_problem(targets, i) is None);
        }
    }
    if forall|i: int|
        0 <= i < targets.len() ==> {
            let t = #[trigger] targets[i];
            &&& t.name@.len() > 0 && !t.name@.contains('/') && !t.name@.contains(':')
            &&& t.command@.len() > 0
            &&& (t.cache == Some(true) || (t.cache is None && !t.test)) ==> t.outputs_raw@.len() > 0 || t.exists is Some
            &&& forall|j: int| 0 <= j < i ==> (#[trigger] targets[j]).name@ != t.name@
        } {
        assert forall|i: int| 0 <= i < targets.len() implies #[trigger] target_problem(targets, i) is None by {
            let t = targets[i];
            assert(t.name@.len() > 0);
        }
    }
}

/// No target is lost in a merge: every target of the root and of every package
/// is in the workspace, resolved in its package, and nothing else is.
pub proof fn law_merge_keeps_all(root: Seq<TargetSpec>, packages: Seq<PackageFile>, all: Seq<TargetSpec>)
    requires
        merged(root, packages, all),
    ensures
        forall|j: int| 0 <= j < root.len() ==> comes_from(all, #[trigger] root[j], Seq::<char>::empty()),
        forall|i: int, j: int|
            #![trigger packages[i].targets->Ok_0@[j]]
            0 <= i < packages.len() && 0 <= j < packages[i].targets->Ok_0@.len() ==> comes_from(all, packages[i].targets->Ok_0@[j], slashes(packages[i].dir@)),
    decreases packages.len(),
{
    if packages.len() == 0 {
        assert forall|j: int| 0 <= j < root.len() implies comes_from(all, #[trigger] root[j], Seq::<char>::empty()) by {
            assert(resolved(root[j], Seq::<char>::empty(), all[j]));
        }
    } else {
        let p = packages.last();
        let t = p.targets->Ok_0@;
        let n = all.len() - t.len();
        let f = packages.drop_last();
        let front = all.take(n);
        law_merge_keeps_all(root, f, front);
        assert forall|j: int| 0 <= j < root.len() implies comes_from(all, #[trigger] root[j], Seq::<char>::empty()) by {
            let k = choose|k: int| 0 <= k < front.len() && resolved(root[j], Seq::<char>::empty(), #[trigger] front[k]);
            assert(all[k] == front[k]);
        }
        assert forall|i: int, j: int|
            #![trigger packages[i].targets->Ok_0@[j]]
            0 <= i < packages.len() && 0 <= j < packages[i].targets->Ok_0@.len() implies comes_from(all, packages[i].targets->Ok_0@[j], slashes(packages[i].dir@)) by {
            if i < f.len() {
                assert(f[i] == packages[i]);
                assert(comes_from(front, f[i].targets->Ok_0@[j], slashes(f[i].dir@)));
                let k = choose|k: int| 0 <= k < front.len() && resolved(packages[i].targets->Ok_0@[j], slashes(packages[i].dir@), #[trigger] front[k]);
                assert(all[k] == front[k]);
            } else {
                assert(resolved(t[j], slashes(p.dir@), all.skip(n)[j]));
                assert(all[n + j] == all.skip(n)[j]);
            }
        }
    }
}

/// The workspace holds the target, resolved in its package.
pub open spec fn comes_from(all: Seq<TargetSpec>, t: TargetSpec, package: Seq<char>) -> bool {
    exists|k: int| 0 <= k < all.len() && resolved(t, package, #[trigger] all[k])
}

/// The number of targets of all packages.
pub open spec fn package_targets(packages: Seq<PackageFile>) -> int
    decreases packages.len(),
{
    if packages.len() == 0 {
        0
    } else {
        package_targets(packages.drop_last()) + packages.last().targets->Ok_0@.len()
    }
}

/// A merge adds nothing: there are as many targets as the files declare.
pub proof fn law_merge_adds_none(root: Seq<TargetSpec>, packages: Seq<PackageFile>, all: Seq<TargetSpec>)
    requires
        merged(root, packages, all),
    ensures
        all.len() == root.len() + package_targets(packages),
    decreases packages.len(),
{
    if packages.len() > 0 {
        let n = all.len() - packages.last().targets->Ok_0@.len();
        law_merge_adds_none(root, packages.drop_last(), all.take(n));
    }
}

/// The configuration files of the packages are those of the three names that
/// are files and not the root's own, as they were met.
pub proof fn law_package_files(files: Seq<ScannedFile>, root_path: Seq<char>)
    ensures
        package_files_of(files, root_path) == files.filter(
            |f: ScannedFile| f.is_file && (f.name matches Some(n) && (n@ == "giant.yaml"@ || n@ == "giant.yml"@ || n@ == "giant.json"@)) && crate::paths::components(f.path@) != crate::paths::components(root_path),
        ).map_values(|f: ScannedFile| f.path@),
    decreases files.len(),
{
    reveal(Seq::filter);
    let pred = |f: ScannedFile| f.is_file && (f.name matches Some(n) && (n@ == "giant.yaml"@ || n@ == "giant.yml"@ || n@ == "giant.json"@)) && crate::paths::components(f.path@) != crate::paths::components(root_path);
    if files.len() > 0 {
        law_package_files(files.drop_last(), root_path);
        let g = files.drop_last().filter(pred);
        assert(g.push(files.last()).map_values(|f: ScannedFile| f.path@) =~= g.map_values(|f: ScannedFile| f.path@).push(files.last().path@));
    } else {
        assert(package_files_of(files, root_path) =~= files.filter(pred).map_values(|f: ScannedFile| f.path@));
    }
}

/// The configuration that is found lies in the nearest directory that has one,
/// and there `giant.yaml` comes before `giant.yml` and that before
/// `giant.json`.
pub proof fn law_nearest_config(dirs: Seq<Seq<char>>, is_file: Seq<Vec<bool>>, k: int)
    requires
        dirs.len() == is_file.len(),
        0 <= k < dirs.len(),
        forall|j: int| 0 <= j < k ==> !(#[trigger] is_file[j])@[0] && !is_file[j]@[1] && !is_file[j]@[2],
        is_file[k]@[0] || is_file[k]@[1] || is_file[k]@[2],
    ensures
        is_file[k]@[0] ==> first_config(dirs, is_file) == Some(crate::paths::joined(dirs[k], "giant.yaml"@)),
        !is_file[k]@[0] && is_file[k]@[1] ==> first_config(dirs, is_file) == Some(crate::paths::joined(dirs[k], "giant.yml"@)),
        !is_file[k]@[0] && !is_file[k]@[1] ==> first_config(dirs, is_file) == Some(crate::paths::joined(dirs[k], "giant.json"@)),
    decreases k,
{
    if k > 0 {
        assert(!is_file[0]@[0]);
        let d = dirs.drop_first();
        let f = is_file.drop_first();
        assert forall|j: int| 0 <= j < k - 1 implies !(#[trigger] f[j])@[0] && !f[j]@[1] && !f[j]@[2] by {
            assert(f[j] == is_file[j + 1]);
        }
        assert(f[k - 1] == is_file[k] && d[k - 1] == dirs[k]);
        law_nearest_config(d, f, k - 1);
    }
}

/// The first rule that matches a target decides: no rule that matches stands
/// before it, and rules that are added behind change nothing.
pub proof fn law_earlier_route_wins(rules: Seq<Route>, more: Seq<Route>, name: Seq<char>, i: int, k: int)
    requires
        first_route(rules, name, i),
        0 <= k < rules.len(),
        glob_error(rules[k].pattern@) is None,
        matches_loosely(rules[k].pattern@, name),
    ensures
        i <= k,
        first_route(rules + more, name, i),
{
    let all = rules + more;
    assert(all[i] == rules[i]);
    assert(route_matches(rules[k], name));
    assert forall|j: int| 0 <= j < i implies !route_matches(#[trigger] all[j], name) by {
        assert(all[j] == rules[j]);
    }
}

/// A target that some rule matches has a rule that decides.
pub proof fn law_route_found(rules: Seq<Route>, name: Seq<char>, k: int)
    requires
        0 <= k < rules.len(),
        glob_error(rules[k].pattern@) is None,
        matches_loosely(rules[k].pattern@, name),
    ensures
        exists|i: int| #[trigger] first_route(rules, name, i),
    decreases k,
{
    if exists|j: int| 0 <= j < k && route_matches(#[trigger] rules[j], name) {
        let j = choose|j: int| 0 <= j < k && route_matches(#[trigger] rules[j], name);
        law_route_found(rules, name, j);
    } else {
        assert(route_matches(rules[k], name));
        assert(first_route(rules, name, k));
    }
}

/// A workspace name is made of ASCII letters, digits, hyphens and underscores
/// alone, and every such text is one; two of them put together are one too.
pub proof fn law_workspace_name(a: Seq<char>, b: Seq<char>, c: char)
    ensures
        !is_workspace_name(Seq::empty()),
        is_workspace_name(a) && is_workspace_name(b) ==> is_workspace_name(a + b),
        is_workspace_name(seq![c]) <==> ('a' <= c <= 'z' || 'A' <= c <= 'Z' || '0' <= c <= '9' || c == '-' || c == '_'),
        is_workspace_name(a) && a.contains(c) ==> is_workspace_name(seq![c]),
        is_workspace_name(a + b) && b.len() > 0 ==> is_workspace_name(b),
        is_workspace_name(a + b) && a.len() > 0 ==> is_workspace_name(a),
{
    assert(seq![c][0] == c);
    let ab = a + b;
    assert forall|i: int| 0 <= i < a.len() implies #[trigger] a[i] == ab[i] by {}
    assert forall|i: int| 0 <= i < b.len() implies #[trigger] b[i] == ab[a.len() + i] by {}
    if is_workspace_name(ab) {
        assert forall|i: int| 0 <= i < a.len() implies is_name_char(#[trigger] a[i]) by {
            assert(is_name_char(ab[i]));
        }
        assert forall|i: int| 0 <= i < b.len() implies is_name_char(#[trigger] b[i]) by {
            assert(is_name_char(ab[a.len() + i]));
        }
    }
}

/// The workspace-wide part of a root configuration is accepted exactly if it has
/// a name of the right characters and is of the first version.
pub proof fn law_root_accepted(c: Config)
    ensures
        root_problem(c) is None <==> (c.schema_version == 1 && c.workspace.name@.len() > 0 && forall|i: int|
            0 <= i < c.workspace.name@.len() ==> {
                let x = #[trigger] c.workspace.name@[i];
                'a' <= x <= 'z' || 'A' <= x <= 'Z' || '0' <= x <= '9' || x == '-' || x == '_'
            }),
{
    let n = c.workspace.name@;
    if root_problem(c) is None {
        assert forall|i: int| 0 <= i < n.len() implies {
            let x = #[trigger] n[i];
            'a' <= x <= 'z' || 'A' <= x <= 'Z' || '0' <= x <= '9' || x == '-' || x == '_'
        } by {
            assert(is_name_char(n[i]));
        }
    }
    if is_workspace_name(n) {
        assert(forall|i: int| 0 <= i < n.len() ==> is_name_char(#[trigger] n[i]));
    }
}

/// Two targets with one label are noticed.
pub proof fn law_repeat_noticed(targets: Seq<TargetSpec>, i: int, j: int)
    requires
        0 <= i < j < targets.len(),
        targets[i].id@ == targets[j].id@,
    ensures
        exists|k: int| #[trigger] first_repeated(targets, k),
    decreases j,
{
    assert(label_repeated(targets, j));
    if exists|k: int| 0 <= k < j && #[trigger] label_repeated(targets, k) {
        let k = choose|k: int| 0 <= k < j && #[trigger] label_repeated(targets, k);
        let m = choose|m: int| 0 <= m < k && (#[trigger] targets[m]).id@ == targets[k].id@;
        law_repeat_noticed(targets, m, k);
    } else {
        assert(first_repeated(targets, j));
    }
}

/// A label that occurs twice among the labels of a workspace is noticed, and only
/// such a one is.
pub proof fn law_label_again_noticed(labels: Seq<Seq<char>>, i: int, j: int)
    requires
        0 <= i < j < labels.len(),
        labels[i] == labels[j],
    ensures
        exists|k: int| #[trigger] first_again(labels, k),
        forall|k: int| #[trigger] first_again(labels, k) ==> k <= j && exists|m: int| 0 <= m < k && #[trigger] labels[m] == labels[k],
    decreases j,
{
    assert(labels.take(j)[i] == labels[j]);
    assert(labels.take(j).contains(labels[j]));
    if exists|k: int| 0 <= k < j && (#[trigger] labels.take(k)).contains(labels[k]) {
        let k = choose|k: int| 0 <= k < j && (#[trigger] labels.take(k)).contains(labels[k]);
        let m = choose|m: int| 0 <= m < labels.take(k).len() && #[trigger] labels.take(k)[m] == labels[k];
        assert(labels[m] == labels[k]);
        law_label_again_noticed(labels, m, k);
    } else {
        assert(first_again(labels, j));
    }
    assert forall|k: int| #[trigger] first_again(labels, k) implies k <= j && exists|m: int| 0 <= m < k && #[trigger] labels[m] == labels[k] by {
        let m = choose|m: int| 0 <= m < labels.take(k).len() && #[trigger] labels.take(k)[m] == labels[k];
        assert(labels[m] == labels[k]);
    }
}

/// Every target of the root and of every package has its label among those of the
/// workspace.
pub proof fn law_all_labels_merged(root: Seq<TargetSpec>, packages: Seq<PackageFile>, p: int, i: int)
    ensures
        0 <= i < root.len() ==> merged_labels(root, packages).contains(label_text(Seq::empty(), root[i].name@)),
        0 <= p < packages.len() && 0 <= i < packages[p].targets->Ok_0@.len() ==> merged_labels(root, packages).contains(
            label_text(slashes(packages[p].dir@), packages[p].targets->Ok_0@[i].name@),
        ),
    decreases packages.len(),
{
    let v = merged_labels(root, packages);
    if packages.len() == 0 {
        if 0 <= i < root.len() {
            assert(v[i] == label_text(Seq::empty(), root[i].name@));
        }
    } else {
        let a = merged_labels(root, packages.drop_last());
        law_all_labels_merged(root, packages.drop_last(), p, i);
        if 0 <= i < root.len() {
            let x = label_text(Seq::empty(), root[i].name@);
            let k = choose|k: int| 0 <= k < a.len() && a[k] == x;
            assert(v[k] == x);
        }
        if 0 <= p < packages.len() && 0 <= i < packages[p].targets->Ok_0@.len() {
            let x = label_text(slashes(packages[p].dir@), packages[p].targets->Ok_0@[i].name@);
            if p < packages.len() - 1 {
                assert(packages.drop_last()[p] == packages[p]);
                let k = choose|k: int| 0 <= k < a.len() && a[k] == x;
                assert(v[k] == x);
            } else {
                assert(v[a.len() + i] == x);
            }
        }
    }
}

/// A target whose paths can be resolved has every output and its directory below
/// the workspace, and every glob of its inputs compiles.
pub proof fn law_resolvable_stays_inside(t: TargetSpec, package: Seq<char>, i: int)
    requires
        resolvable(t, package),
    ensures
        0 <= i < t.outputs_raw@.len() ==> stays_below(in_package(package, t.outputs_raw@[i]@)),
        0 <= i < t.inputs@.len() ==> (t.inputs@[i] matches Input::File { glob } ==> glob_error(in_package(package, glob@)) is None),
        stays_below(in_package(package, raw_cwd(t))),
{
    if 0 <= i < t.inputs@.len() {
        assert(!input_bad(t.inputs@[i], package));
    }
}

/// Of a target that cannot be resolved, something leads out of the workspace or
/// does not compile.
pub proof fn law_unresolvable_has_cause(t: TargetSpec, package: Seq<char>)
    requires
        !resolvable(t, package),
        stays_below(in_package(package, raw_cwd(t))),
        forall|i: int| 0 <= i < t.outputs_raw@.len() ==> stays_below(in_package(package, (#[trigger] t.outputs_raw@[i])@)),
    ensures
        exists|i: int| 0 <= i < t.inputs@.len() && ((#[trigger] t.inputs@[i]) matches Input::File { glob } && glob_error(in_package(package, glob@)) is Some),
{
    let i = choose|i: int| 0 <= i < t.inputs@.len() && input_bad(#[trigger] t.inputs@[i], package);
    assert(t.inputs@[i] is File);
}

/// A package file with a key of the root configuration is never merged.
pub proof fn law_root_keys_refused(p: PackageFile, i: int)
    requires
        p.keys matches Ok(v) && 0 <= i < v@.len() && seq!["workspace"@, "cache"@, "remote"@, "dispatch"@, "state"@, "schema_version"@].contains(
            v@[i]@,
        ),
    ensures
        !package_fits(p),
{
    let v = p.keys->Ok_0@;
    let list = seq!["workspace"@, "cache"@, "remote"@, "dispatch"@, "state"@, "schema_version"@];
    let k = choose|k: int| 0 <= k < list.len() && list[k] == v[i]@;
    assert(list[k] == v[i]@);
    assert(strs(v)[i] == v[i]@);
    assert(is_root_only(strs(v)[i]));
}

/// A package file without such a key, with valid targets that can be resolved, is
/// merged.
pub proof fn law_package_fits(p: PackageFile)
    requires
        p.keys is Ok,
        forall|i: int|
            0 <= i < p.keys->Ok_0@.len() ==> !seq![
                "workspace"@,
                "cache"@,
                "remote"@,
                "dispatch"@,
                "state"@,
                "schema_version"@,
            ].contains((#[trigger] p.keys->Ok_0@[i])@),
        p.targets is Ok,
        targets_valid(p.targets->Ok_0@),
        forall|i: int| 0 <= i < p.targets->Ok_0@.len() ==> resolvable(#[trigger] p.targets->Ok_0@[i], slashes(p.dir@)),
    ensures
        package_fits(p),
{
    let v = p.keys->Ok_0@;
    let list = seq!["workspace"@, "cache"@, "remote"@, "dispatch"@, "state"@, "schema_version"@];
    assert(list[0] == "workspace"@ && list[1] == "cache"@ && list[2] == "remote"@);
    assert(list[3] == "dispatch"@ && list[4] == "state"@ && list[5] == "schema_version"@);
    assert forall|i: int| 0 <= i < v.len() implies !is_root_only(#[trigger] strs(v)[i]) by {
        assert(strs(v)[i] == v[i]@);
        assert(!list.contains(v[i]@));
    }
}

/// The root of a workspace is the nearest directory whose configuration names it:
/// one further up is taken only where none nearer has a name.
pub proof fn law_nearest_root(names: Seq<Option<String>>, i: int, k: int)
    requires
        nearest_root(names, i),
        0 <= k < names.len(),
        names[k] is Some,
        names[k]->0@.len() > 0,
    ensures
        i <= k,
        names[i] is Some,
        names[i]->0@.len() > 0,
{
    assert(marks_root(names[k]));
}

/// A directory that a configuration names is found as a root.
pub proof fn law_root_found(names: Seq<Option<String>>, k: int)
    requires
        0 <= k < names.len(),
        names[k] is Some,
        names[k]->0@.len() > 0,
    ensures
        exists|i: int| #[trigger] nearest_root(names, i),
    decreases k,
{
    if exists|j: int| 0 <= j < k && marks_root(#[trigger] names[j]) {
        let j = choose|j: int| 0 <= j < k && marks_root(#[trigger] names[j]);
        law_root_found(names, j);
    } else {
        assert(nearest_root(names, k));
    }
}

/// A file is read as JSON exactly if its name is something followed by `.json`.
pub proof fn law_json_path(path: Seq<char>, stem: Seq<char>)
    requires
        crate::paths::components(path).len() > 0,
    ensures
        stem.len() > 0 && crate::paths::components(path).last() == stem + ".json"@ ==> is_json_path(path),
        is_json_path(path) ==> exists|n: Seq<char>| n.len() > 0 && crate::paths::components(path).last() == #[trigger] (n + ".json"@),
{
    let last = crate::paths::components(path).last();
    if stem.len() > 0 && last == stem + ".json"@ {
        assert(last.skip(last.len() - ".json"@.len()) == ".json"@);
    }
    if is_json_path(path) {
        let n = last.take(last.len() - ".json"@.len());
        assert(last == n + ".json"@);
    }
}

/// A list of targets with something wrong is refused for its first such target.
pub proof fn law_problem_reported(targets: Seq<TargetSpec>, k: int)
    requires
        0 <= k < targets.len(),
        target_problem(targets, k) is Some,
    ensures
        exists|i: int, m: Seq<char>| i <= k && #[trigger] first_problem(targets, i, m),
        !targets_valid(targets),
    decreases k,
{
    if exists|j: int| 0 <= j < k && (#[trigger] target_problem(targets, j)) is Some {
        let j = choose|j: int| 0 <= j < k && (#[trigger] target_problem(targets, j)) is Some;
        law_problem_reported(targets, j);
    } else {
        assert(first_problem(targets, k, target_problem(targets, k)->0));
    }
}

/// A package file that cannot be merged is reported; of several, the first is.
pub proof fn law_misfit_is_first(packages: Seq<PackageFile>, i: int, e: ConfigError, k: int)
    requires
        first_misfit(packages, i, e),
        0 <= k < packages.len(),
        !package_fits(packages[k]),
    ensures
        i <= k,
        !package_fits(packages[i]),
{
}

} // verus!
