//! What a command needs before it runs: directories, the selection of targets,
//! and what follows a build.

use crate::config::CacheConfig;
use crate::graph::BuildGraph;
use crate::model::{id_texts, ids_of, retained, TargetId};
use crate::paths::{absolute, is_absolute, joined, path_join, path_relative, relative_to};
use crate::selection::{patterns_resolve, resolution_error, resolve_patterns, resolved_to, SelectionError, SelectionOpts, TestMode};
use crate::session::text_view;
use crate::text::{has_prefix, owned, str_eq, strip_prefix, strs};
use vstd::prelude::*;
use vstd::string::*;

verus! {

/// The number, or the largest of 64 bits.
pub open spec fn saturated(n: int) -> int {
    if n > u64::MAX {
        u64::MAX as int
    } else {
        n
    }
}

/// A product that stops at the largest number.
pub fn product(a: u64, b: u64) -> (r: u64)
    ensures
        r == saturated(a * b),
{
    match a.checked_mul(b) {
        Some(v) => v,
        None => u64::MAX,
    }
}

/// Where the failed targets of the last build are kept.
pub fn last_failures_path(workspace_root: &str, state_dir: &str) -> (r: String)
    ensures
        r@ == joined(joined(workspace_root@, state_dir@), "last-failures.json"@),
{
    let dir = path_join(workspace_root, state_dir);
    path_join(dir.as_str(), "last-failures.json")
}

/// What `serde_json::from_slice` makes of bytes that are to hold a list of
/// texts; nothing where they do not.
pub uninterp spec fn json_texts(bytes: Seq<u8>) -> Option<Seq<Seq<char>>>;

/// What `serde_json::to_vec` makes of a list of texts.
pub uninterp spec fn texts_json(texts: Seq<Seq<char>>) -> Seq<u8>;

/// A list of texts that may be missing, by its view.
pub open spec fn texts_view(v: Option<Vec<String>>) -> Option<Seq<Seq<char>>> {
    match v {
        Some(t) => Some(strs(t@)),
        None => None,
    }
}

/// `serde_json::from_slice` for a list of texts. Trusted: its result is a
/// function of the bytes.
#[verifier::external_body]
fn parse_texts(bytes: &[u8]) -> (r: Option<Vec<String>>)
    ensures
        texts_view(r) == json_texts(bytes@),
{
    serde_json::from_slice::<Vec<String>>(bytes).ok()
}

/// `serde_json::to_vec` for a list of texts. Trusted: it succeeds, its result is
/// a function of the texts, and what it wrote is read back as the same texts.
#[verifier::external_body]
fn write_texts(texts: &Vec<String>) -> (r: Option<Vec<u8>>)
    ensures
        r is Some,
        r->0@ == texts_json(strs(texts@)),
        json_texts(r->0@) == Some(strs(texts@)),
{
    serde_json::to_vec(texts).ok()
}

/// The labels that the last build recorded as failed; none where `bytes` hold
/// no list of labels.
pub fn read_last_failures(bytes: &[u8]) -> (r: Vec<TargetId>)
    ensures
        ids_of(r@) == (match json_texts(bytes@) {
            Some(v) => v,
            None => Seq::<Seq<char>>::empty(),
        }),
{
    match parse_texts(bytes) {
        Some(labels) => crate::graph::ids_from(&labels),
        None => {
            let none: Vec<TargetId> = Vec::new();
            assert(ids_of(none@) == Seq::<Seq<char>>::empty());
            none
        },
    }
}

/// What a build records of its failed targets. It is read back as the same
/// labels, and a build without failures records that there are none.
pub fn write_last_failures(failed: &Vec<TargetId>) -> (r: Option<Vec<u8>>)
    ensures
        r is Some,
        r->0@ == texts_json(ids_of(failed@)),
        json_texts(r->0@) == Some(ids_of(failed@)),
{
    let labels = id_texts(failed);
    write_texts(&labels)
}

/// A directory as it is meant: `~` is the home directory.
pub open spec fn expanded(raw: Seq<char>, home: Option<Seq<char>>) -> Option<Seq<char>> {
    if has_prefix(raw, "~/"@) {
        match home {
            Some(h) => Some(joined(h, raw.skip(2))),
            None => None,
        }
    } else if raw == "~"@ {
        home
    } else {
        Some(raw)
    }
}

/// The cache directory that the configuration names: below the home directory
/// or the current one unless it is absolute.
pub fn resolve_cache_dir(raw: &str, home: &Option<String>, cwd: &Result<String, String>) -> (r: Result<String, String>)
    ensures
        match expanded(raw@, text_view(*home)) {
            None => r matches Err(e) && e@ == "no home directory"@,
            Some(p) => if is_absolute(p) {
                r matches Ok(d) && d@ == p
            } else {
                match *cwd {
                    Ok(c) => r matches Ok(d) && d@ == joined(c@, p),
                    Err(m) => r matches Err(e) && e@ == m@,
                }
            },
        },
{
    proof {
        reveal_strlit("~/");
    }
    let path = match strip_prefix(raw, "~/") {
        Some(rest) => match home {
            Some(h) => path_join(h.as_str(), rest),
            None => {
                return Err(owned("no home directory"));
            },
        },
        None => {
            if str_eq(raw, "~") {
                match home {
                    Some(h) => h.clone(),
                    None => {
                        return Err(owned("no home directory"));
                    },
                }
            } else {
                owned(raw)
            }
        },
    };
    if absolute(path.as_str()) {
        return Ok(path);
    }
    match cwd {
        Ok(c) => Ok(path_join(c.as_str(), path.as_str())),
        Err(m) => Err(m.clone()),
    }
}

/// The mode of a build: `--with-tests` lets a build that leaves tests out take
/// them too.
pub fn effective_mode(base: TestMode, with_tests: bool) -> (r: TestMode)
    ensures
        r == (if base is Exclude && with_tests {
            TestMode::Include
        } else {
            base
        }),
{
    match base {
        TestMode::Exclude => {
            if with_tests {
                TestMode::Include
            } else {
                base
            }
        },
        _ => base,
    }
}

/// The patterns ask for the targets that failed last.
pub open spec fn asks_failures(patterns: Seq<Seq<char>>) -> bool {
    patterns == seq!["failed-last"@]
}

/// Whether the patterns ask for the targets that failed last.
pub fn wants_failures(patterns: &Vec<String>) -> (r: bool)
    ensures
        r == asks_failures(strs(patterns@)),
{
    let ghost pv = strs(patterns@);
    proof {
        assert(pv.len() == patterns@.len());
        if pv.len() == 1 {
            assert(pv[0] == patterns@[0]@);
            assert(pv =~= seq![pv[0]]);
        }
        if asks_failures(pv) {
            assert(pv[0] == "failed-last"@);
        }
    }
    patterns.len() == 1 && str_eq(patterns[0].as_str(), "failed-last")
}

/// Why no targets were chosen.
#[derive(Debug, PartialEq, Eq)]
pub enum ChoiceError {
    NoFailures,
    Selection(SelectionError),
}

impl ChoiceError {
    /// The error in words.
    pub open spec fn text(&self) -> Seq<char> {
        match *self {
            ChoiceError::NoFailures => "no recent failures recorded - run a build first, then `failed-last`"@,
            ChoiceError::Selection(e) => e.text(),
        }
    }

    pub fn message(&self) -> (r: String)
        ensures
            r@ == self.text(),
    {
        match self {
            ChoiceError::NoFailures => owned("no recent failures recorded - run a build first, then `failed-last`"),
            ChoiceError::Selection(e) => e.message(),
        }
    }
}

fn known_of(graph: &BuildGraph, ids: &Vec<TargetId>) -> (r: Vec<TargetId>)
    requires
        graph.well_formed(),
    ensures
        ids_of(r@) == retained(ids_of(ids@), graph.ids()),
{
    let ghost iv = ids_of(ids@);
    let mut out: Vec<TargetId> = Vec::new();
    let mut i: usize = 0;
    assert(ids_of(out@) == iv.take(0));
    while i < ids.len()
        invariant
            i <= ids.len(),
            graph.well_formed(),
            iv == ids_of(ids@),
            ids_of(out@) == retained(iv.take(i as int), graph.ids()),
        decreases ids.len() - i,
    {
        let ghost before = ids_of(out@);
        assert(iv.take(i + 1).drop_last() == iv.take(i as int));
        assert(iv.take(i + 1).last() == ids@[i as int]@);
        if graph.get(&ids[i]).is_some() {
            out.push(ids[i].clone());
            assert(ids_of(out@) == before.push(ids@[i as int]@));
        }
        i = i + 1;
    }
    assert(iv.take(i as int) == iv);
    out
}

/// The targets that a command line chooses. The one pattern `failed-last` stands
/// for those that failed last and are still there; anything else is resolved
/// as patterns.
pub fn choose_targets(graph: &BuildGraph, patterns: &Vec<String>, last_failures: &Vec<TargetId>, mode: TestMode, opts: &SelectionOpts) -> (r: Result<Vec<TargetId>, ChoiceError>)
    requires
        graph.well_formed(),
    ensures
        asks_failures(strs(patterns@)) ==> {
            let failed = retained(ids_of(last_failures@), graph.ids());
            &&& r is Ok <==> failed.len() > 0
            &&& (r matches Ok(v) ==> ids_of(v@) == failed)
            &&& (r matches Err(e) ==> e is NoFailures)
        },
        !asks_failures(strs(patterns@)) ==> {
            &&& r is Ok <==> patterns_resolve(graph.specs(), strs(patterns@), mode, *opts)
            &&& (r matches Ok(v) ==> resolved_to(graph.specs(), strs(patterns@), mode, *opts, ids_of(v@)))
            &&& (r matches Err(e) ==> e is Selection && resolution_error(graph.specs(), strs(patterns@), mode, *opts, e->Selection_0))
        },
{
    if wants_failures(patterns) {
        let failed = known_of(graph, last_failures);
        assert(ids_of(failed@).len() == failed@.len());
        if failed.len() == 0 {
            return Err(ChoiceError::NoFailures);
        }
        return Ok(failed);
    }
    match resolve_patterns(graph, patterns, mode, opts) {
        Ok(v) => Ok(v),
        Err(e) => Err(ChoiceError::Selection(e)),
    }
}

/// Where the changed files come from.
#[derive(Debug, PartialEq, Eq)]
pub enum ChangedFiles {
    /// They are listed.
    Listed(Vec<String>),
    /// They are what changed since a revision.
    Since(String),
}

/// Where the changed files come from: a list goes before a revision, and one of
/// them has to be given.
pub fn changed_files(files: &Vec<String>, base: &Option<String>, workspace_root: &str) -> (r: Result<ChangedFiles, String>)
    ensures
        r is Err <==> files@.len() == 0 && base is None,
        r matches Err(e) ==> e@ == "--affected requires --base <ref> or one or more --file <path>"@,
        r matches Ok(c) ==> (c is Listed <==> files@.len() > 0),
        r matches Ok(ChangedFiles::Listed(v)) ==> strs(v@) == strs(files@).map_values(|p: Seq<char>| relative_to(p, workspace_root@)),
        r matches Ok(ChangedFiles::Since(b)) ==> b@ == base->0@,
{
    if files.len() > 0 {
        let mut out: Vec<String> = Vec::new();
        let mut i: usize = 0;
        while i < files.len()
            invariant
                i <= files.len(),
                out.len() == i,
                forall|k: int| 0 <= k < i ==> (#[trigger] out@[k])@ == relative_to(files@[k]@, workspace_root@),
            decreases files.len() - i,
        {
            out.push(path_relative(files[i].as_str(), workspace_root));
            i = i + 1;
        }
        assert(strs(out@) == strs(files@).map_values(|p: Seq<char>| relative_to(p, workspace_root@)));
        return Ok(ChangedFiles::Listed(out));
    }
    match base {
        Some(b) => Ok(ChangedFiles::Since(b.clone())),
        None => Err(owned("--affected requires --base <ref> or one or more --file <path>")),
    }
}

/// What a command goes on with.
#[derive(Debug, Clone, Copy, PartialEq, Eq, Structural)]
pub enum BuildStep {
    /// The changes affect nothing of the selection.
    NothingAffected,
    /// The selection is empty.
    NothingToBuild,
    Watch,
    Build,
}

/// What a command goes on with, by its selection.
pub fn next_step(affected: bool, selection: &Vec<TargetId>, watch: bool) -> (r: BuildStep)
    ensures
        r == (if selection@.len() == 0 {
            if affected {
                BuildStep::NothingAffected
            } else {
                BuildStep::NothingToBuild
            }
        } else if watch {
            BuildStep::Watch
        } else {
            BuildStep::Build
        }),
{
    if selection.len() == 0 {
        if affected {
            BuildStep::NothingAffected
        } else {
            BuildStep::NothingToBuild
        }
    } else if watch {
        BuildStep::Watch
    } else {
        BuildStep::Build
    }
}

/// A share of the largest size of the cache, in bytes.
pub open spec fn cache_share(max_gb: u64, pct: u32) -> int {
    saturated(saturated(max_gb * 0x4000_0000) * pct) / 100
}

/// The size to shrink the cache to, if it is due: a limit is set and the cache
/// is above its trigger.
pub fn eviction_target(cfg: &CacheConfig, current: u64) -> (r: Option<u64>)
    ensures
        r is Some <==> cfg.max_size_gb is Some && cfg.max_size_gb->0 != 0 && current > cache_share(cfg.max_size_gb->0, cfg.evict_when_above_pct),
        r matches Some(t) ==> t == cache_share(cfg.max_size_gb->0, cfg.evict_target_pct),
{
    match cfg.max_size_gb {
        None => None,
        Some(max_gb) => {
            if max_gb == 0 {
                return None;
            }
            let max_bytes: u64 = product(max_gb, 0x4000_0000);
            let trigger: u64 = product(max_bytes, cfg.evict_when_above_pct as u64) / 100;
            let target: u64 = product(max_bytes, cfg.evict_target_pct as u64) / 100;
            if current <= trigger {
                None
            } else {
                Some(target)
            }
        },
    }
}

/// Eviction makes room: where the target share is no larger than the trigger,
/// the size to shrink to is below the size that set it off.
pub proof fn law_eviction_shrinks(max_gb: u64, above: u32, target: u32, current: int)
    requires
        target <= above,
        current > cache_share(max_gb, above),
    ensures
        cache_share(max_gb, target) < current,
{
    let m = saturated(max_gb * 0x4000_0000);
    assert(m * target <= m * above) by (nonlinear_arith)
        requires
            m >= 0,
            target <= above,
    ;
}

/// `~` is the home directory and `~/x` lies below it; any other directory is
/// meant as written, with or without a home.
pub proof fn law_expanded(rest: Seq<char>, raw: Seq<char>, home: Option<Seq<char>>)
    ensures
        home matches Some(h) ==> expanded("~/"@ + rest, home) == Some(joined(h, rest)),
        expanded("~"@, home) == home,
        home is None ==> expanded("~/"@ + rest, home) is None,
        raw.len() == 0 || raw[0] != '~' ==> expanded(raw, home) == Some(raw),
{
    reveal_strlit("~/");
    reveal_strlit("~");
    let a = "~/"@ + rest;
    assert(a.take(2) =~= "~/"@);
    assert(a.skip(2) =~= rest);
    if raw.len() == 0 || raw[0] != '~' {
        if has_prefix(raw, "~/"@) {
            assert(raw.take(2)[0] == raw[0]);
        }
        assert(raw != "~"@) by {
            assert("~"@[0] == '~');
        }
    }
}

/// A share of the cache is that many hundredths of its size in bytes, as long as
/// the product fits; a larger share is no smaller.
pub proof fn law_cache_share(max_gb: u64, pct: u32, more: u32)
    requires
        max_gb * 0x4000_0000 <= u64::MAX,
        max_gb * 0x4000_0000 * pct <= u64::MAX,
    ensures
        cache_share(max_gb, pct) == max_gb * 0x4000_0000 * pct / 100,
        pct <= more ==> cache_share(max_gb, pct) <= cache_share(max_gb, more),
        cache_share(max_gb, 0) == 0,
        max_gb * 0x4000_0000 * 100 <= u64::MAX ==> cache_share(max_gb, 100) == max_gb * 0x4000_0000,
{
    let m = max_gb * 0x4000_0000;
    assert(0 <= m * pct) by (nonlinear_arith)
        requires
            m >= 0,
            pct >= 0,
    ;
    if pct <= more {
        assert(m * pct <= m * more) by (nonlinear_arith)
            requires
                m >= 0,
                pct <= more,
        ;
    }
    assert(m * 0 == 0);
}

} // verus!
