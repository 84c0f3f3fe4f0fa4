//! Read queries: the keys of targets as the cache stands, and the answers to
//! status, log and explain queries.

use crate::dispatch::Plan;
use crate::digest::{hex_of, is_digest_hex, sha256, unhex};
use crate::events::{Event, ExplainCacheHit, ExplainDep, ExplainEnv, ExplainInput, ExplainOutput, LogStream, TargetStatus};
use crate::executor::replay_lines;
use crate::key::{
    compute_cache_key_with_breakdown, dep_views, env_views, file_views, key_bytes, BuiltIn, CacheKeyBreakdown,
    FileInputContribution, StructuralContribution,
};
use crate::model::{CacheKey, ContentHash, TargetId, TargetSpec};
use crate::outputs::{AcEntry, OutputEntry};
use crate::session::text_view;
use crate::text::{cat2, lines_of, owned, strs, utf8, utf8_lossy};
use vstd::prelude::*;
use vstd::string::*;

verus! {

/// What the walk found for one target.
#[derive(Debug, Clone, Copy)]
pub struct Walked {
    pub key: CacheKey,
    /// The hash of its outputs, if the cache has an entry under the key.
    pub output: Option<ContentHash>,
}

/// What the walk found for one target: its key and the hash of its outputs.
pub open spec fn walked_view(w: Option<Walked>) -> Option<(Seq<u8>, Option<Seq<u8>>)> {
    match w {
        Some(w) => Some((
            w.key@,
            match w.output {
                Some(h) => Some(h@),
                None => None,
            },
        )),
        None => None,
    }
}

pub open spec fn walked_views(v: Seq<Option<Walked>>) -> Seq<Option<(Seq<u8>, Option<Seq<u8>>)>> {
    v.map_values(|w: Option<Walked>| walked_view(w))
}

/// Some of the dependencies has no key.
pub open spec fn blocked(deps: Seq<usize>, found: Seq<Option<(Seq<u8>, Option<Seq<u8>>)>>) -> bool {
    exists|k: int| 0 <= k < deps.len() && found[#[trigger] deps[k] as int] is None
}

/// The output hashes of the dependencies that the cache knows, by label.
pub open spec fn known_outputs(
    deps: Seq<usize>,
    ids: Seq<TargetId>,
    found: Seq<Option<(Seq<u8>, Option<Seq<u8>>)>>,
) -> Seq<(Seq<char>, Seq<u8>)>
    decreases deps.len(),
{
    if deps.len() == 0 {
        Seq::empty()
    } else {
        let rest = known_outputs(deps.drop_last(), ids, found);
        let d = deps.last() as int;
        match found[d] {
            Some(w) => match w.1 {
                Some(h) => rest.push((ids[d]@, h)),
                None => rest,
            },
            None => rest,
        }
    }
}

pub open spec fn labelled(v: Seq<(TargetId, ContentHash)>) -> Seq<(Seq<char>, Seq<u8>)> {
    v.map_values(|p: (TargetId, ContentHash)| (p.0@, p.1@))
}

/// The hashes of a labelled list.
pub open spec fn hashes_of(v: Seq<(Seq<char>, Seq<u8>)>) -> Seq<Seq<u8>> {
    v.map_values(|p: (Seq<char>, Seq<u8>)| p.1)
}

/// The output hash that a cache entry records, if it is one.
pub open spec fn recorded_hash(text: Option<Seq<char>>) -> Option<Seq<u8>> {
    match text {
        Some(t) => if is_digest_hex(utf8(t)) {
            Some(unhex(utf8(t)))
        } else {
            None
        },
        None => None,
    }
}

/// The walk over a target's dependencies, dependencies first. Each target's
/// key is computed from the output hashes that the cache has for its
/// dependencies; a dependency without an entry contributes nothing.
pub struct KeyWalk {
    plan: Plan,
    found: Vec<Option<Walked>>,
}

impl KeyWalk {
    pub closed spec fn plan(&self) -> Plan {
        self.plan
    }

    /// What was found for the targets walked so far, in the order of the plan;
    /// `None` for one whose key cannot be computed.
    pub closed spec fn found(&self) -> Seq<Option<(Seq<u8>, Option<Seq<u8>>)>> {
        walked_views(self.found@)
    }

    pub open spec fn well_formed(&self) -> bool {
        &&& self.plan().well_formed()
        &&& self.found().len() <= self.plan().ids@.len()
    }

    /// The target that is next.
    pub open spec fn at(&self) -> int {
        self.found().len() as int
    }

    /// The output hashes that go into the key of the next target.
    pub open spec fn inputs(&self) -> Seq<(Seq<char>, Seq<u8>)> {
        known_outputs(self.plan().deps@[self.at()]@, self.plan().ids@, self.found())
    }

    pub fn new(plan: Plan) -> (r: KeyWalk)
        requires
            plan.well_formed(),
        ensures
            r.well_formed(),
            r.plan() == plan,
            r.found() == Seq::<Option<(Seq<u8>, Option<Seq<u8>>)>>::empty(),
    {
        let found: Vec<Option<Walked>> = Vec::new();
        assert(walked_views(found@) == Seq::<Option<(Seq<u8>, Option<Seq<u8>>)>>::empty());
        KeyWalk { plan, found }
    }

    /// The position in the plan of the next target, if one is left.
    pub fn pending(&self) -> (r: Option<usize>)
        requires
            self.well_formed(),
        ensures
            r is Some <==> self.at() < self.plan().ids@.len(),
            r matches Some(i) ==> i == self.at(),
    {
        if self.found.len() < self.plan.ids.len() {
            Some(self.found.len())
        } else {
            None
        }
    }

    /// The label of a planned target.
    pub fn id(&self, at: usize) -> (r: &TargetId)
        requires
            at < self.plan().ids@.len(),
        ensures
            *r == self.plan().ids@[at as int],
    {
        &self.plan.ids[at]
    }

    /// The output hashes that go into the key of the next target; `None` if a
    /// dependency has no key.
    pub fn dep_outputs(&self) -> (r: Option<Vec<(TargetId, ContentHash)>>)
        requires
            self.well_formed(),
            self.at() < self.plan().ids@.len(),
        ensures
            r is None <==> blocked(self.plan().deps@[self.at()]@, self.found()),
            r matches Some(v) ==> labelled(v@) == self.inputs(),
    {
        let at: usize = self.found.len();
        let ghost deps = self.plan.deps@[at as int]@;
        let ghost found = self.found();
        let mut out: Vec<(TargetId, ContentHash)> = Vec::new();
        let n: usize = self.plan.deps[at].len();
        let mut k: usize = 0;
        assert(labelled(out@) == known_outputs(deps.take(0), self.plan.ids@, found));
        while k < n
            invariant
                k <= n,
                self.well_formed(),
                at == self.found@.len(),
                at < self.plan.ids@.len(),
                deps == self.plan.deps@[at as int]@,
                n == deps.len(),
                found == walked_views(self.found@),
                forall|j: int| 0 <= j < k ==> found[#[trigger] deps[j] as int] is Some,
                labelled(out@) == known_outputs(deps.take(k as int), self.plan.ids@, found),
            decreases n - k,
        {
            let d: usize = self.plan.deps[at][k];
            assert(self.plan.deps@[at as int]@[k as int] < at);
            assert(found[d as int] == walked_view(self.found@[d as int]));
            assert(deps.take(k + 1).drop_last() == deps.take(k as int));
            assert(deps.take(k + 1).last() == d);
            let ghost before = out@;
            match &self.found[d] {
                None => {
                    assert(found[deps[k as int] as int] is None);
                    return None;
                },
                Some(w) => match w.output {
                    Some(h) => {
                        out.push((self.plan.ids[d].clone(), h));
                        assert(labelled(out@) == labelled(before).push((self.plan.ids@[d as int]@, h@)));
                    },
                    None => {},
                },
            }
            k = k + 1;
        }
        assert(deps.take(k as int) == deps);
        Some(out)
    }

    /// The key of the next target and what went into it; `None` if a dependency
    /// has no key.
    pub fn compose(
        &self,
        spec: &TargetSpec,
        built_in: &BuiltIn,
        files: Vec<FileInputContribution>,
        structurals: Vec<StructuralContribution>,
    ) -> (r: Option<(CacheKey, CacheKeyBreakdown)>)
        requires
            self.well_formed(),
            self.at() < self.plan().ids@.len(),
        ensures
            r is None <==> blocked(self.plan().deps@[self.at()]@, self.found()),
            r matches Some(p) ==> {
                &&& p.0@ == sha256(key_bytes(
                    spec.command@,
                    spec.cwd@,
                    env_views(spec.env@),
                    built_in.target_triple@,
                    built_in.version@,
                    file_views(files@),
                    structurals@,
                    hashes_of(self.inputs()),
                ))
                &&& p.1.command@ == spec.command@
                &&& p.1.cwd@ == spec.cwd@
                &&& p.1.file_inputs == files
                &&& p.1.structural_inputs == structurals
                &&& labelled(p.1.dep_outputs@) == self.inputs()
                &&& env_views(p.1.user_env@) == crate::order::sorted_pairs(env_views(spec.env@))
                &&& env_views(p.1.built_in_env@) == seq![("GIANT_TARGET_TRIPLE"@, built_in.target_triple@), ("GIANT_VERSION"@, built_in.version@)]
            },
    {
        match self.dep_outputs() {
            None => None,
            Some(deps) => {
                assert(dep_views(deps@) == hashes_of(labelled(deps@)));
                Some(compute_cache_key_with_breakdown(spec, built_in, files, structurals, deps))
            },
        }
    }

    /// Records the next target: its key and what the cache entry under it says
    /// of its outputs, or that it has no key.
    pub fn record(&mut self, key: Option<CacheKey>, outputs_content_hash: &Option<String>)
        requires
            old(self).well_formed(),
            old(self).at() < old(self).plan().ids@.len(),
        ensures
            final(self).well_formed(),
            final(self).plan() == old(self).plan(),
            final(self).found() == old(self).found().push(
                match key {
                    Some(k) => Some((k@, recorded_hash(text_view(*outputs_content_hash)))),
                    None => None,
                },
            ),
    {
        let ghost before = self.found@;
        let w = match key {
            None => None,
            Some(key) => {
                let output = match outputs_content_hash {
                    Some(t) => ContentHash::from_hex(t.as_str()),
                    None => None,
                };
                Some(Walked { key, output })
            },
        };
        self.found.push(w);
        assert(walked_views(self.found@) == walked_views(before).push(walked_view(w)));
    }

    /// What was found for a target that was walked.
    pub fn result(&self, at: usize) -> (r: Option<Walked>)
        requires
            self.well_formed(),
            at < self.at(),
        ensures
            walked_view(r) == self.found()[at as int],
    {
        assert(self.found()[at as int] == walked_view(self.found@[at as int]));
        self.found[at]
    }
}

/// The state of one target in a status reply: cached if its key is known and
/// the cache has an entry under it, with how long that build took.
pub fn target_status(id: &TargetId, key: &Option<CacheKey>, entry: &Option<AcEntry>) -> (r: TargetStatus)
    ensures
        r.id@ == id@,
        r.state@ == (if key is Some && entry is Some { "cached"@ } else { "stale"@ }),
        r.key@ == (match *key {
            Some(k) => hex_of(k@),
            None => Seq::<char>::empty(),
        }),
        r.last_duration_ms == (if key is Some && entry is Some { Some(entry->0.duration_ms) } else { None::<u64> }),
{
    match key {
        Some(k) => match entry {
            Some(e) => TargetStatus { id: id.clone(), state: owned("cached"), key: k.to_hex(), last_duration_ms: Some(e.duration_ms) },
            None => TargetStatus { id: id.clone(), state: owned("stale"), key: k.to_hex(), last_duration_ms: None },
        },
        None => TargetStatus { id: id.clone(), state: owned("stale"), key: String::new(), last_duration_ms: None },
    }
}

/// The inputs of an explain reply.
pub open spec fn input_views(v: Seq<ExplainInput>) -> Seq<(Seq<char>, Seq<char>, u64)> {
    v.map_values(|i: ExplainInput| (i.path@, i.hash@, i.size))
}

pub open spec fn explained_inputs(v: Seq<FileInputContribution>) -> Seq<(Seq<char>, Seq<char>, u64)> {
    v.map_values(|f: FileInputContribution| (f.rel_path@, hex_of(f.content_hash@), f.size))
}

pub open spec fn explain_dep_views(v: Seq<ExplainDep>) -> Seq<(Seq<char>, Seq<char>)> {
    v.map_values(|d: ExplainDep| (d.id@, d.output_hash@))
}

pub open spec fn explained_deps(v: Seq<(TargetId, ContentHash)>) -> Seq<(Seq<char>, Seq<char>)> {
    v.map_values(|p: (TargetId, ContentHash)| (p.0@, hex_of(p.1@)))
}

pub open spec fn explain_env_views(v: Seq<ExplainEnv>) -> Seq<(Seq<char>, Seq<char>, bool)> {
    v.map_values(|e: ExplainEnv| (e.key@, e.value@, e.built_in))
}

pub open spec fn explained_env(v: Seq<(String, String)>, built_in: bool) -> Seq<(Seq<char>, Seq<char>, bool)> {
    v.map_values(|p: (String, String)| (p.0@, p.1@, built_in))
}

pub open spec fn output_entry_views(v: Seq<ExplainOutput>) -> Seq<(Seq<char>, Seq<char>, u64, Seq<char>)> {
    v.map_values(|o: ExplainOutput| (o.path@, o.hash@, o.size, o.mode@))
}

pub open spec fn explained_outputs(v: Seq<OutputEntry>) -> Seq<(Seq<char>, Seq<char>, u64, Seq<char>)> {
    v.map_values(|o: OutputEntry| (o.path@, o.content_hash@, o.size, o.mode@))
}

/// The reply shows the cache entry.
pub open spec fn shows_hit(h: ExplainCacheHit, e: AcEntry) -> bool {
    &&& h.built_at@ == e.built_at@
    &&& h.duration_ms == e.duration_ms
    &&& h.exit_code == e.exit_code
    &&& output_entry_views(h.outputs@) == explained_outputs(e.outputs@)
    &&& h.outputs_content_hash@ == e.outputs_content_hash@
}

fn explain_inputs(v: &Vec<FileInputContribution>) -> (r: Vec<ExplainInput>)
    ensures
        input_views(r@) == explained_inputs(v@),
{
    let mut out: Vec<ExplainInput> = Vec::new();
    let mut i: usize = 0;
    while i < v.len()
        invariant
            i <= v.len(),
            out.len() == i,
            forall|k: int| 0 <= k < i ==> (#[trigger] out@[k]).path@ == v@[k].rel_path@ && out@[k].hash@ == hex_of(v@[k].content_hash@) && out@[k].size == v@[k].size,
        decreases v.len() - i,
    {
        out.push(ExplainInput { path: v[i].rel_path.clone(), hash: v[i].content_hash.to_hex(), size: v[i].size });
        i = i + 1;
    }
    assert(input_views(out@) == explained_inputs(v@));
    out
}

fn explain_deps(v: &Vec<(TargetId, ContentHash)>) -> (r: Vec<ExplainDep>)
    ensures
        explain_dep_views(r@) == explained_deps(v@),
{
    let mut out: Vec<ExplainDep> = Vec::new();
    let mut i: usize = 0;
    while i < v.len()
        invariant
            i <= v.len(),
            out.len() == i,
            forall|k: int| 0 <= k < i ==> (#[trigger] out@[k]).id@ == v@[k].0@ && out@[k].output_hash@ == hex_of(v@[k].1@),
        decreases v.len() - i,
    {
        out.push(ExplainDep { id: v[i].0.clone(), output_hash: v[i].1.to_hex() });
        i = i + 1;
    }
    assert(explain_dep_views(out@) == explained_deps(v@));
    out
}

fn explain_env(user: &Vec<(String, String)>, built_in: &Vec<(String, String)>) -> (r: Vec<ExplainEnv>)
    ensures
        explain_env_views(r@) == explained_env(user@, false) + explained_env(built_in@, true),
{
    let mut out: Vec<ExplainEnv> = Vec::new();
    let mut i: usize = 0;
    while i < user.len()
        invariant
            i <= user.len(),
            out.len() == i,
            forall|k: int| 0 <= k < i ==> (#[trigger] out@[k]).key@ == user@[k].0@ && out@[k].value@ == user@[k].1@ && !out@[k].built_in,
        decreases user.len() - i,
    {
        out.push(ExplainEnv { key: user[i].0.clone(), value: user[i].1.clone(), built_in: false });
        i = i + 1;
    }
    let ghost first = explain_env_views(out@);
    assert(first == explained_env(user@, false));
    let ghost n = out.len() as int;
    let mut j: usize = 0;
    while j < built_in.len()
        invariant
            j <= built_in.len(),
            out.len() == n + j,
            first.len() == n,
            forall|k: int| 0 <= k < n ==> ((#[trigger] out@[k]).key@, out@[k].value@, out@[k].built_in) == first[k],
            forall|k: int| n <= k < n + j ==> (#[trigger] out@[k]).key@ == built_in@[k - n].0@ && out@[k].value@ == built_in@[k - n].1@ && out@[k].built_in,
        decreases built_in.len() - j,
    {
        out.push(ExplainEnv { key: built_in[j].0.clone(), value: built_in[j].1.clone(), built_in: true });
        j = j + 1;
    }
    assert(explain_env_views(out@) == first + explained_env(built_in@, true));
    out
}

fn explain_hit(e: &AcEntry) -> (r: ExplainCacheHit)
    ensures
        shows_hit(r, *e),
{
    let mut out: Vec<ExplainOutput> = Vec::new();
    let mut i: usize = 0;
    while i < e.outputs.len()
        invariant
            i <= e.outputs.len(),
            out.len() == i,
            forall|k: int| 0 <= k < i ==> (#[trigger] out@[k]).path@ == e.outputs@[k].path@ && out@[k].hash@ == e.outputs@[k].content_hash@ && out@[k].size == e.outputs@[k].size && out@[k].mode@ == e.outputs@[k].mode@,
        decreases e.outputs.len() - i,
    {
        out.push(
            ExplainOutput {
                path: e.outputs[i].path.clone(),
                hash: e.outputs[i].content_hash.clone(),
                size: e.outputs[i].size,
                mode: e.outputs[i].mode.clone(),
            },
        );
        i = i + 1;
    }
    assert(output_entry_views(out@) == explained_outputs(e.outputs@));
    ExplainCacheHit {
        built_at: e.built_at.clone(),
        duration_ms: e.duration_ms,
        exit_code: e.exit_code,
        outputs: out,
        outputs_content_hash: e.outputs_content_hash.clone(),
    }
}

/// The reply to an explain query.
pub fn explain_reply(command_id: Option<String>, target: TargetId, key: &CacheKey, bd: &CacheKeyBreakdown, entry: &Option<AcEntry>) -> (r: Event)
    ensures
        r matches Event::QueryExplained { command_id: c, target: t, key: k, cached, command, cwd, file_inputs, deps, env, cache_hit } && {
            &&& text_view(c) == text_view(command_id)
            &&& t@ == target@
            &&& k@ == hex_of(key@)
            &&& cached == (entry is Some)
            &&& command@ == bd.command@
            &&& cwd@ == bd.cwd@
            &&& input_views(file_inputs@) == explained_inputs(bd.file_inputs@)
            &&& explain_dep_views(deps@) == explained_deps(bd.dep_outputs@)
            &&& explain_env_views(env@) == explained_env(bd.user_env@, false) + explained_env(bd.built_in_env@, true)
            &&& cache_hit is Some <==> entry is Some
            &&& (cache_hit is Some ==> shows_hit(cache_hit->0, entry->0))
        },
{
    let cache_hit = match entry {
        Some(e) => Some(explain_hit(e)),
        None => None,
    };
    Event::QueryExplained {
        command_id,
        target,
        key: key.to_hex(),
        cached: entry.is_some(),
        command: bd.command.clone(),
        cwd: bd.cwd.clone(),
        file_inputs: explain_inputs(&bd.file_inputs),
        deps: explain_deps(&bd.dep_outputs),
        env: explain_env(&bd.user_env, &bd.built_in_env),
        cache_hit,
    }
}

/// The refusal of a query whose key cannot be computed.
pub fn no_key_reason(error: &str) -> (r: String)
    ensures
        r@ == "cannot compute cache key: "@ + error@,
{
    cat2("cannot compute cache key: ", error)
}

/// The key that a log query names: `Ok(None)` if it names none, an error if
/// the text is no key.
pub fn requested_key(key: &Option<String>) -> (r: Result<Option<CacheKey>, String>)
    ensures
        r is Err <==> key is Some && recorded_hash(text_view(*key)) is None,
        r matches Err(e) ==> e@ == "malformed cache key: "@ + key->0@,
        r matches Ok(k) ==> (k is Some <==> key is Some),
        r matches Ok(k) ==> (k is Some ==> recorded_hash(text_view(*key)) == Some(k->0@)),
{
    match key {
        None => Ok(None),
        Some(hex) => match ContentHash::from_hex(hex.as_str()) {
            Some(h) => Ok(Some(CacheKey::new(h))),
            None => Err(cat2("malformed cache key: ", hex.as_str())),
        },
    }
}

/// One event of a log reply: the stream and the line.
pub open spec fn is_log_line(e: Event, command_id: Option<Seq<char>>, target: Seq<char>, stream: LogStream, line: Seq<char>) -> bool {
    e matches Event::LogsLine { command_id: c, target: t, stream: s, line: l } && text_view(c) == command_id && t@ == target && s == stream && l@ == line
}

/// The lines of a stream that was kept.
pub open spec fn kept_lines(blob: Option<Vec<u8>>) -> Seq<Seq<char>> {
    match blob {
        Some(b) => lines_of(utf8_lossy(b@)),
        None => Seq::<Seq<char>>::empty(),
    }
}

/// A copy of a text that may be missing.
pub fn copy_text(s: &Option<String>) -> (r: Option<String>)
    ensures
        text_view(r) == text_view(*s),
{
    match s {
        Some(t) => Some(t.clone()),
        None => None,
    }
}

fn push_lines(out: &mut Vec<Event>, command_id: &Option<String>, target: &TargetId, stream: LogStream, lines: &Vec<String>)
    ensures
        final(out)@.len() == old(out)@.len() + lines@.len(),
        forall|i: int| 0 <= i < old(out)@.len() ==> #[trigger] final(out)@[i] == old(out)@[i],
        forall|i: int| 0 <= i < lines@.len() ==> is_log_line(final(out)@[old(out)@.len() + i], text_view(*command_id), target@, stream, #[trigger] strs(lines@)[i]),
{
    let ghost n = out@.len() as int;
    let mut i: usize = 0;
    while i < lines.len()
        invariant
            i <= lines.len(),
            n == old(out)@.len(),
            out@.len() == n + i,
            forall|k: int| 0 <= k < n ==> #[trigger] out@[k] == old(out)@[k],
            forall|k: int| 0 <= k < i ==> is_log_line(out@[n + k], text_view(*command_id), target@, stream, #[trigger] strs(lines@)[k]),
        decreases lines.len() - i,
    {
        let ghost before = out@;
        out.push(Event::LogsLine { command_id: copy_text(command_id), target: target.clone(), stream, line: lines[i].clone() });
        proof {
            assert forall|k: int| 0 <= k < i + 1 implies is_log_line(out@[n + k], text_view(*command_id), target@, stream, #[trigger] strs(lines@)[k]) by {
                if k < i {
                    assert(out@[n + k] == before[n + k]);
                }
            }
        }
        i = i + 1;
    }
}

/// The reply to a log query: the lines of standard output, those of standard
/// error, and the end.
pub fn logs_reply(command_id: Option<String>, target: TargetId, stdout: &Option<Vec<u8>>, stderr: &Option<Vec<u8>>) -> (r: Vec<Event>)
    ensures
        r@.len() == kept_lines(*stdout).len() + kept_lines(*stderr).len() + 1,
        forall|i: int| 0 <= i < kept_lines(*stdout).len() ==> is_log_line(r@[i], text_view(command_id), target@, LogStream::Stdout, #[trigger] kept_lines(*stdout)[i]),
        forall|i: int| 0 <= i < kept_lines(*stderr).len() ==> is_log_line(r@[kept_lines(*stdout).len() + i], text_view(command_id), target@, LogStream::Stderr, #[trigger] kept_lines(*stderr)[i]),
        r@.last() matches Event::LogsEnd { command_id: c, target: t } && text_view(c) == text_view(command_id) && t@ == target@,
{
    let out_lines = match stdout {
        Some(b) => replay_lines(b.as_slice()),
        None => {
            let v: Vec<String> = Vec::new();
            assert(strs(v@) == Seq::<Seq<char>>::empty());
            v
        },
    };
    let err_lines = match stderr {
        Some(b) => replay_lines(b.as_slice()),
        None => {
            let v: Vec<String> = Vec::new();
            assert(strs(v@) == Seq::<Seq<char>>::empty());
            v
        },
    };
    let mut out: Vec<Event> = Vec::new();
    push_lines(&mut out, &command_id, &target, LogStream::Stdout, &out_lines);
    let ghost first = out@;
    push_lines(&mut out, &command_id, &target, LogStream::Stderr, &err_lines);
    let ghost second = out@;
    proof {
        assert(strs(out_lines@).len() == out_lines@.len());
        assert(strs(err_lines@).len() == err_lines@.len());
        assert forall|i: int| 0 <= i < strs(out_lines@).len() implies is_log_line(second[i], text_view(command_id), target@, LogStream::Stdout, #[trigger] strs(out_lines@)[i]) by {
            assert(second[i] == first[i]);
            assert(is_log_line(first[0 + i], text_view(command_id), target@, LogStream::Stdout, strs(out_lines@)[i]));
        }
    }
    out.push(Event::LogsEnd { command_id, target });
    out
}

/// The output hashes that go into a key are those of the dependencies that the
/// cache knows, each with its label, and no others.
pub proof fn law_known_outputs(deps: Seq<usize>, ids: Seq<TargetId>, found: Seq<Option<(Seq<u8>, Option<Seq<u8>>)>>, x: (Seq<char>, Seq<u8>))
    ensures
        known_outputs(deps, ids, found).contains(x) <==> exists|k: int|
            0 <= k < deps.len() && (found[#[trigger] deps[k] as int] matches Some(w) && w.1 == Some(x.1)) && ids[deps[k] as int]@ == x.0,
    decreases deps.len(),
{
    if deps.len() > 0 {
        let f = deps.drop_last();
        let rest = known_outputs(f, ids, found);
        let n = deps.len() - 1;
        law_known_outputs(f, ids, found, x);
        let d = deps.last() as int;
        if let Some(w) = found[d] {
            if let Some(h) = w.1 {
                crate::order::lemma_push_contains(rest, (ids[d]@, h), x);
            }
        }
        if rest.contains(x) {
            let k = choose|k: int| 0 <= k < f.len() && (found[#[trigger] f[k] as int] matches Some(w) && w.1 == Some(x.1)) && ids[f[k] as int]@ == x.0;
            assert(deps[k] == f[k]);
        }
        assert(deps[n] == deps.last());
        if exists|k: int| 0 <= k < deps.len() && (found[#[trigger] deps[k] as int] matches Some(w) && w.1 == Some(x.1)) && ids[deps[k] as int]@ == x.0 {
            let k = choose|k: int| 0 <= k < deps.len() && (found[#[trigger] deps[k] as int] matches Some(w) && w.1 == Some(x.1)) && ids[deps[k] as int]@ == x.0;
            if k < n {
                assert(f[k] == deps[k]);
            }
        }
    }
}

/// An explanation of a key lists every file, dependency and variable once, in
/// their order, with the hexadecimal form of its hash.
pub proof fn law_explained(
    files: Seq<FileInputContribution>,
    deps: Seq<(TargetId, ContentHash)>,
    env: Seq<(String, String)>,
    built_in: bool,
    outputs: Seq<OutputEntry>,
    i: int,
)
    ensures
        explained_inputs(files).len() == files.len(),
        explained_deps(deps).len() == deps.len(),
        explained_env(env, built_in).len() == env.len(),
        explained_outputs(outputs).len() == outputs.len(),
        0 <= i < files.len() ==> explained_inputs(files)[i].0 == files[i].rel_path@ && explained_inputs(files)[i].1 == hex_of(
            files[i].content_hash@,
        ) && explained_inputs(files)[i].2 == files[i].size,
        0 <= i < deps.len() ==> explained_deps(deps)[i].0 == deps[i].0@ && explained_deps(deps)[i].1 == hex_of(deps[i].1@),
        0 <= i < env.len() ==> explained_env(env, built_in)[i].0 == env[i].0@ && explained_env(env, built_in)[i].1 == env[i].1@ && explained_env(
            env,
            built_in,
        )[i].2 == built_in,
        0 <= i < outputs.len() ==> explained_outputs(outputs)[i].0 == outputs[i].path@ && explained_outputs(outputs)[i].1 == outputs[i].content_hash@
            && explained_outputs(outputs)[i].2 == outputs[i].size && explained_outputs(outputs)[i].3 == outputs[i].mode@,
{
}

/// Whatever hash a cache entry records is read back from its text.
pub proof fn law_recorded_hash(h: Seq<u8>, text: Seq<char>)
    requires
        h.len() == 32,
        text == hex_of(h),
    ensures
        recorded_hash(Some(text)) == Some(h),
        recorded_hash(None) is None,
{
    crate::digest::lemma_unhex_hex(h);
}

/// The key of a target is unknown as soon as that of one of its dependencies is.
pub proof fn law_blocked(deps: Seq<usize>, found: Seq<Option<(Seq<u8>, Option<Seq<u8>>)>>, k: int)
    requires
        0 <= k < deps.len(),
    ensures
        found[deps[k] as int] is None ==> blocked(deps, found),
        blocked(deps, found) ==> exists|j: int| 0 <= j < deps.len() && found[#[trigger] deps[j] as int] is None,
{
}

} // verus!
