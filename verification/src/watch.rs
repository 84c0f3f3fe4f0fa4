//! Watching for changes: batches of changed paths, what they affect, and what a
//! subscription reports.

use crate::events::Event;
use crate::graph::BuildGraph;
use crate::model::{globs_of, ids_of, out_paths_of, retain_ids, retained, split_label, Input, TargetId, TargetSpec};
use crate::paths::{below_any, components, is_below, joined, path_below_any, path_components, path_join, path_relative, path_set, relative_to, same_path, sort_paths};
use crate::pattern::{glob_match, matches_loosely, GlobPattern};
use crate::order::{sort_strings, sorted_strs};
use crate::selection::{
    affected_targets, is_affected, patterns_resolve, resolution_error, resolve_patterns, resolved_to, SelectionError, SelectionOpts, TestMode,
};
use crate::text::{cat2, cat3, cat4, decimal, hex4, hex_number, number, owned, str_eq, strs};
use vstd::prelude::*;
use vstd::string::*;

verus! {

/// Gathers changed paths into batches.
///
/// A batch is due when `quiet` has passed since its last path, or `max_delay`
/// since its first. All times are counted from one start, in one unit.
pub struct Debouncer {
    quiet: u64,
    max_delay: u64,
    pending: Vec<String>,
    first_event: Option<u64>,
    last_event: Option<u64>,
}

/// What ended a wait for the next batch.
#[derive(Debug)]
pub enum Wake {
    Cancelled,
    /// The time that `until_flush` gave has passed.
    Due,
    /// A path changed, at the time.
    Changed { path: String, now: u64 },
    /// No more paths will come.
    Closed,
}

/// What follows a wake.
#[derive(Debug, PartialEq, Eq)]
pub enum Turn {
    /// Wait again.
    Wait,
    /// Take the batch; an empty one follows a cancellation.
    Batch(Vec<String>),
    /// There is nothing more to come.
    Over,
}

/// Some path of `v` has the components of `path`.
pub open spec fn names_path(v: Seq<Seq<char>>, path: Seq<char>) -> bool {
    exists|i: int| 0 <= i < v.len() && components(#[trigger] v[i]) == components(path)
}

/// The smaller of two times.
pub open spec fn sooner(a: int, b: int) -> int {
    if a <= b {
        a
    } else {
        b
    }
}

/// How long ago `then` was; nothing if it is still to come.
pub open spec fn since(then: int, now: int) -> int {
    if now >= then {
        now - then
    } else {
        0
    }
}

/// What is left of `span` when `passed` of it is over.
pub open spec fn left_of(span: int, passed: int) -> int {
    if passed >= span {
        0
    } else {
        span - passed
    }
}

impl Debouncer {
    pub closed spec fn quiet(&self) -> u64 {
        self.quiet
    }

    pub closed spec fn max_delay(&self) -> u64 {
        self.max_delay
    }

    /// The paths of the batch, in the order they came.
    pub closed spec fn pending(&self) -> Seq<Seq<char>> {
        strs(self.pending@)
    }

    /// When the first and the last path of the batch came.
    pub closed spec fn span(&self) -> Option<(u64, u64)> {
        match self.first_event {
            Some(a) => match self.last_event {
                Some(b) => Some((a, b)),
                None => None,
            },
            None => None,
        }
    }

    /// A batch has times if and only if it has paths, and no path twice.
    pub closed spec fn well_formed(&self) -> bool {
        &&& self.first_event is Some <==> self.last_event is Some
        &&& self.first_event is Some <==> self.pending@.len() > 0
        &&& forall|i: int, j: int| 0 <= i < j < self.pending@.len() ==> components(#[trigger] self.pending()[i]) != components(#[trigger] self.pending()[j])
    }

    /// How long until the batch is due.
    pub open spec fn due_in(&self, now: int) -> int {
        sooner(
            left_of(self.quiet() as int, since((self.span()->0).1 as int, now)),
            left_of(self.max_delay() as int, since((self.span()->0).0 as int, now)),
        )
    }

    /// A batch names no path twice, and it is due exactly if the quiet time has
    /// passed since its last path or the longest delay since its first: a
    /// stream of changes cannot put it off any further.
    pub proof fn law_batch_due(&self, now: int)
        requires
            self.well_formed(),
            self.pending().len() > 0,
            now >= (self.span()->0).0,
            now >= (self.span()->0).1,
        ensures
            self.span() is Some,
            self.due_in(now) == 0 <==> now >= (self.span()->0).1 + self.quiet() || now >= (self.span()->0).0 + self.max_delay(),
            forall|i: int, j: int| 0 <= i < j < self.pending().len() ==> components(#[trigger] self.pending()[i]) != components(#[trigger] self.pending()[j]),
    {
    }

    pub fn new(quiet: u64, max_delay: u64) -> (r: Debouncer)
        ensures
            r.well_formed(),
            r.quiet() == quiet,
            r.max_delay() == max_delay,
            r.pending().len() == 0,
            r.span() is None,
    {
        Debouncer { quiet, max_delay, pending: Vec::new(), first_event: None, last_event: None }
    }

    /// How long until the batch is due; `None` while there is none.
    pub fn until_flush(&self, now: u64) -> (r: Option<u64>)
        requires
            self.well_formed(),
        ensures
            r is Some <==> self.pending().len() > 0,
            r matches Some(d) ==> d == self.due_in(now as int),
            r matches Some(d) ==> d <= self.quiet() && d <= self.max_delay(),
    {
        match self.first_event {
            Some(first) => match self.last_event {
                Some(last) => {
                    let a: u64 = self.quiet.saturating_sub(now.saturating_sub(last));
                    let b: u64 = self.max_delay.saturating_sub(now.saturating_sub(first));
                    if a <= b {
                        Some(a)
                    } else {
                        Some(b)
                    }
                },
                None => None,
            },
            None => None,
        }
    }

    /// Takes the batch.
    pub fn flush(&mut self) -> (r: Vec<String>)
        requires
            old(self).well_formed(),
        ensures
            final(self).well_formed(),
            strs(r@) == old(self).pending(),
            final(self).pending().len() == 0,
            final(self).span() is None,
            final(self).quiet() == old(self).quiet(),
            final(self).max_delay() == old(self).max_delay(),
    {
        self.first_event = None;
        self.last_event = None;
        let mut out: Vec<String> = Vec::new();
        out.append(&mut self.pending);
        out
    }

    fn names(&self, path: &str) -> (r: bool)
        ensures
            r == names_path(self.pending(), path@),
    {
        let mut i: usize = 0;
        while i < self.pending.len()
            invariant
                i <= self.pending.len(),
                forall|k: int| 0 <= k < i ==> components(#[trigger] self.pending()[k]) != components(path@),
            decreases self.pending.len() - i,
        {
            assert(self.pending()[i as int] == self.pending@[i as int]@);
            if same_path(self.pending[i].as_str(), path) {
                return true;
            }
            i = i + 1;
        }
        false
    }

    /// What follows a wake. A path joins the batch, once. A deadline that
    /// passed, and the end of the changes, give up the batch; a cancelled wait
    /// drops it and ends with an empty one. It is over when the changes have
    /// ended and no path is pending.
    pub fn step(&mut self, wake: Wake) -> (r: Turn)
        requires
            old(self).well_formed(),
        ensures
            final(self).well_formed(),
            final(self).quiet() == old(self).quiet(),
            final(self).max_delay() == old(self).max_delay(),
            wake matches Wake::Changed { path, now } ==> {
                &&& r is Wait
                &&& final(self).pending() == (if names_path(old(self).pending(), path@) {
                    old(self).pending()
                } else {
                    old(self).pending().push(path@)
                })
                &&& final(self).span() == Some((
                    match old(self).span() {
                        Some(s) => s.0,
                        None => now,
                    },
                    now,
                ))
            },
            wake is Cancelled ==> {
                &&& r is Batch
                &&& r->Batch_0@.len() == 0
                &&& final(self).pending().len() == 0
                &&& final(self).span() is None
            },
            wake is Closed && old(self).pending().len() == 0 ==> r is Over && *final(self) == *old(self),
            wake is Due || (wake is Closed && old(self).pending().len() > 0) ==> {
                &&& r is Batch
                &&& strs(r->Batch_0@) == old(self).pending()
                &&& final(self).pending().len() == 0
                &&& final(self).span() is None
            },
    {
        match wake {
            Wake::Cancelled => {
                self.flush();
                Turn::Batch(Vec::new())
            },
            Wake::Due => Turn::Batch(self.flush()),
            Wake::Changed { path, now } => {
                if self.first_event.is_none() {
                    self.first_event = Some(now);
                }
                self.last_event = Some(now);
                let ghost before = self.pending();
                assert(before == old(self).pending());
                if !self.names(path.as_str()) {
                    proof {
                        assert forall|i: int| 0 <= i < before.len() implies components(#[trigger] before[i]) != components(path@) by {}
                    }
                    self.pending.push(path);
                    let ghost after = self.pending();
                    assert(after == before.push(path@));
                    proof {
                        assert forall|i: int, j: int| 0 <= i < j < after.len() implies components(#[trigger] after[i]) != components(#[trigger] after[j]) by {
                            assert(after[i] == before[i]);
                            if j < before.len() {
                                assert(after[j] == before[j]);
                            }
                        }
                    }
                } else {
                    assert(before.len() > 0);
                }
                Turn::Wait
            },
            Wake::Closed => {
                if self.pending.len() == 0 {
                    Turn::Over
                } else {
                    Turn::Batch(self.flush())
                }
            },
        }
    }
}

/// The outputs of the targets, below the workspace.
pub open spec fn outputs_below(root: Seq<char>, specs: Seq<TargetSpec>) -> Seq<Seq<char>>
    decreases specs.len(),
{
    if specs.len() == 0 {
        Seq::<Seq<char>>::empty()
    } else {
        outputs_below(root, specs.drop_last()) + out_paths_of(specs.last().outputs@).map_values(|o: Seq<char>| joined(root, o))
    }
}

/// What a watch leaves out: the repository, the state, the cache and every
/// declared output, so that the engine's own writes do not wake it.
pub fn standard_excludes(workspace_root: &str, cache_root: &str, state_dir: &str, graph: &BuildGraph) -> (r: Vec<String>)
    ensures
        strs(r@) == seq![joined(workspace_root@, ".git"@), joined(workspace_root@, state_dir@), cache_root@] + outputs_below(workspace_root@, graph.specs()),
{
    let mut out: Vec<String> = Vec::new();
    out.push(path_join(workspace_root, ".git"));
    out.push(path_join(workspace_root, state_dir));
    out.push(owned(cache_root));
    let ghost base = seq![joined(workspace_root@, ".git"@), joined(workspace_root@, state_dir@), cache_root@];
    assert(strs(out@) == base);
    let ghost specs = graph.specs();
    let n: usize = graph.len();
    let mut i: usize = 0;
    assert(base + outputs_below(workspace_root@, specs.take(0)) == base);
    while i < n
        invariant
            i <= n,
            n == graph.specs().len(),
            specs == graph.specs(),
            strs(out@) == base + outputs_below(workspace_root@, specs.take(i as int)),
        decreases n - i,
    {
        let ghost before = strs(out@);
        let t = graph.at(i);
        let ghost ov = out_paths_of(t.outputs@).map_values(|o: Seq<char>| joined(workspace_root@, o));
        let mut k: usize = 0;
        assert(before + ov.take(0) == before);
        while k < t.outputs.len()
            invariant
                k <= t.outputs.len(),
                ov == out_paths_of(t.outputs@).map_values(|o: Seq<char>| joined(workspace_root@, o)),
                strs(out@) == before + ov.take(k as int),
            decreases t.outputs.len() - k,
        {
            let ghost inner = strs(out@);
            out.push(path_join(workspace_root, t.outputs[k].as_str()));
            assert(strs(out@) == inner.push(ov[k as int]));
            assert(before + ov.take(k + 1) == inner.push(ov[k as int]));
            k = k + 1;
        }
        assert(ov.take(k as int) == ov);
        assert(specs.take(i + 1).drop_last() == specs.take(i as int));
        assert(specs.take(i + 1).last() == *t);
        assert(before + ov == base + (outputs_below(workspace_root@, specs.take(i as int)) + ov));
        i = i + 1;
    }
    assert(specs.take(i as int) == specs);
    out
}

/// The paths as seen from the workspace.
pub open spec fn seen_from(batch: Seq<Seq<char>>, root: Seq<char>) -> Seq<Seq<char>> {
    batch.map_values(|p: Seq<char>| relative_to(p, root))
}

fn see_from(batch: &Vec<String>, root: &str) -> (r: Vec<String>)
    ensures
        strs(r@) == seen_from(strs(batch@), root@),
{
    let mut out: Vec<String> = Vec::new();
    let mut i: usize = 0;
    while i < batch.len()
        invariant
            i <= batch.len(),
            out.len() == i,
            forall|k: int| 0 <= k < i ==> (#[trigger] out@[k])@ == relative_to(batch@[k]@, root@),
        decreases batch.len() - i,
    {
        out.push(path_relative(batch[i].as_str(), root));
        i = i + 1;
    }
    assert(strs(out@) == seen_from(strs(batch@), root@));
    out
}

/// `x` is the label of a target that the files affect.
#[verifier::opaque]
pub open spec fn affects(graph: &BuildGraph, files: Seq<Seq<char>>, x: Seq<char>) -> bool {
    exists|t: int| 0 <= t < graph.specs().len() && (#[trigger] graph.specs()[t]).id@ == x && is_affected(graph, files, t)
}

/// The part of the selection that a batch affects, in the order of the
/// selection.
pub open spec fn affected_part(graph: &BuildGraph, files: Seq<Seq<char>>, selection: Seq<Seq<char>>) -> Seq<Seq<char>>
    decreases selection.len(),
{
    if selection.len() == 0 {
        selection
    } else {
        let rest = affected_part(graph, files, selection.drop_last());
        if affects(graph, files, selection.last()) {
            rest.push(selection.last())
        } else {
            rest
        }
    }
}

proof fn lemma_affected_part(graph: &BuildGraph, files: Seq<Seq<char>>, selection: Seq<Seq<char>>, keep: Seq<Seq<char>>)
    requires
        forall|x: Seq<char>| keep.contains(x) <==> affects(graph, files, x),
    ensures
        retained(selection, keep) == affected_part(graph, files, selection),
    decreases selection.len(),
{
    if selection.len() > 0 {
        lemma_affected_part(graph, files, selection.drop_last(), keep);
    }
}

/// The targets of the selection that the files affect.
pub fn affected_selection(graph: &BuildGraph, files: &Vec<String>, selection: &Vec<TargetId>) -> (r: Vec<TargetId>)
    requires
        graph.well_formed(),
    ensures
        ids_of(r@) == affected_part(graph, strs(files@), ids_of(selection@)),
{
    let affected = affected_targets(graph, files);
    proof {
        reveal(affects);
        lemma_affected_part(graph, strs(files@), ids_of(selection@), ids_of(affected@));
    }
    retain_ids(selection, &affected)
}

/// What a batch of changes makes a watch build again. It may be nothing: the
/// change touched no target of the selection.
pub fn next_affected_cycle(graph: &BuildGraph, batch: &Vec<String>, selection: &Vec<TargetId>, workspace_root: &str) -> (r: Vec<TargetId>)
    requires
        graph.well_formed(),
    ensures
        ids_of(r@) == affected_part(graph, seen_from(strs(batch@), workspace_root@), ids_of(selection@)),
{
    let rel = see_from(batch, workspace_root);
    affected_selection(graph, &rel, selection)
}

/// Why there is nothing to watch.
#[derive(Debug, PartialEq, Eq)]
pub enum WatchError {
    Selection(SelectionError),
    Nothing,
}

impl WatchError {
    /// The error in words.
    pub open spec fn text(&self) -> Seq<char> {
        match *self {
            WatchError::Selection(e) => e.text(),
            WatchError::Nothing => "no targets to watch"@,
        }
    }

    pub fn message(&self) -> (r: String)
        ensures
            r@ == self.text(),
    {
        match self {
            WatchError::Selection(e) => e.message(),
            WatchError::Nothing => owned("no targets to watch"),
        }
    }
}

/// The targets of a watch: what the patterns select, of that only what the
/// changed files affect where it is confined to those, and not nothing.
pub fn watched_targets(graph: &BuildGraph, patterns: &Vec<String>, mode: TestMode, opts: &SelectionOpts, changed: &Option<Vec<String>>) -> (r: Result<Vec<TargetId>, WatchError>)
    requires
        graph.well_formed(),
    ensures
        !patterns_resolve(graph.specs(), strs(patterns@), mode, *opts) ==> (r matches Err(WatchError::Selection(e)) && resolution_error(graph.specs(), strs(patterns@), mode, *opts, e)),
        patterns_resolve(graph.specs(), strs(patterns@), mode, *opts) ==> exists|v: Seq<Seq<char>>| #![trigger resolved_to(graph.specs(), strs(patterns@), mode, *opts, v)] {
            let kept = match *changed {
                Some(files) => affected_part(graph, strs(files@), v),
                None => v,
            };
            &&& resolved_to(graph.specs(), strs(patterns@), mode, *opts, v)
            &&& r is Ok <==> kept.len() > 0
            &&& (r matches Ok(t) ==> ids_of(t@) == kept)
            &&& (r matches Err(e) ==> e is Nothing)
        },
{
    let chosen = match resolve_patterns(graph, patterns, mode, opts) {
        Ok(v) => v,
        Err(e) => {
            return Err(WatchError::Selection(e));
        },
    };
    let ghost v = ids_of(chosen@);
    assert(resolved_to(graph.specs(), strs(patterns@), mode, *opts, v));
    let kept = match changed {
        Some(files) => affected_selection(graph, files, &chosen),
        None => chosen,
    };
    assert(ids_of(kept@).len() == kept@.len());
    if kept.len() == 0 {
        Err(WatchError::Nothing)
    } else {
        Ok(kept)
    }
}

/// What is said when a watch begins.
pub fn watching_note(selection: &Vec<TargetId>) -> (r: String)
    ensures
        r@ == "watching "@ + decimal(selection@.len()) + " target(s) - Ctrl-C to exit"@,
{
    let n = number(selection.len() as u128);
    cat3("watching ", n.as_str(), " target(s) - Ctrl-C to exit")
}

/// What is said of a change, by the targets that it makes the watch build.
pub fn cycle_note(to_build: &Vec<TargetId>) -> (r: String)
    ensures
        r@ == (if to_build@.len() == 0 {
            "no targets affected"@
        } else {
            decimal(to_build@.len()) + " target(s) affected, rebuilding"@
        }),
{
    if to_build.len() == 0 {
        return owned("no targets affected");
    }
    let n = number(to_build.len() as u128);
    cat2(n.as_str(), " target(s) affected, rebuilding")
}

/// Some glob matches one of the paths.
pub open spec fn glob_hit(globs: Seq<Seq<char>>, files: Seq<Seq<char>>) -> bool {
    exists|i: int, k: int| #![trigger globs[i], files[k]] 0 <= i < globs.len() && 0 <= k < files.len() && matches_loosely(globs[i], files[k])
}

/// Some requested target is affected.
pub open spec fn target_hit(graph: &BuildGraph, requested: Seq<Seq<char>>, files: Seq<Seq<char>>) -> bool {
    exists|i: int| 0 <= i < requested.len() && affects(graph, files, #[trigger] requested[i])
}

/// A batch concerns a subscription: the subscription has no scope, a glob
/// matches a path, or a path feeds a requested target.
pub open spec fn concerns(graph: &BuildGraph, requested: Seq<Seq<char>>, globs: Seq<Seq<char>>, files: Seq<Seq<char>>) -> bool {
    ||| requested.len() == 0 && globs.len() == 0
    ||| glob_hit(globs, files)
    ||| target_hit(graph, requested, files)
}

fn any_glob_hit(matchers: &Vec<GlobPattern>, files: &Vec<String>) -> (r: bool)
    ensures
        r == glob_hit(globs_of(matchers@), strs(files@)),
{
    let ghost gv = globs_of(matchers@);
    let ghost fv = strs(files@);
    let mut i: usize = 0;
    while i < matchers.len()
        invariant
            i <= matchers.len(),
            gv == globs_of(matchers@),
            fv == strs(files@),
            forall|a: int, k: int| #![trigger gv[a], fv[k]] 0 <= a < i && 0 <= k < fv.len() ==> !matches_loosely(gv[a], fv[k]),
        decreases matchers.len() - i,
    {
        assert(gv[i as int] == matchers@[i as int]@);
        let mut k: usize = 0;
        while k < files.len()
            invariant
                k <= files.len(),
                i < matchers.len(),
                gv == globs_of(matchers@),
                fv == strs(files@),
                gv[i as int] == matchers@[i as int]@,
                forall|m: int| 0 <= m < k ==> !matches_loosely(gv[i as int], #[trigger] fv[m]),
            decreases files.len() - k,
        {
            assert(fv[k as int] == files@[k as int]@);
            if matchers[i].matches(files[k].as_str()) {
                return true;
            }
            k = k + 1;
        }
        i = i + 1;
    }
    false
}

/// What a subscription reports of a batch: all its paths, as seen from the
/// workspace and sorted, if the batch concerns it.
pub fn relevant(graph: &BuildGraph, requested: &Vec<TargetId>, matchers: &Vec<GlobPattern>, batch: &Vec<String>, workspace_root: &str) -> (r: Option<Vec<String>>)
    requires
        graph.well_formed(),
    ensures
        r is Some <==> batch@.len() > 0 && concerns(graph, ids_of(requested@), globs_of(matchers@), seen_from(strs(batch@), workspace_root@)),
        r matches Some(v) ==> strs(v@) == sorted_strs(seen_from(strs(batch@), workspace_root@)),
{
    if batch.len() == 0 {
        return None;
    }
    let rel = see_from(batch, workspace_root);
    let ghost fv = strs(rel@);
    let ghost rv = ids_of(requested@);
    let whole: bool = requested.len() == 0 && matchers.len() == 0;
    let mut hit: bool = whole || any_glob_hit(matchers, &rel);
    if !hit {
        let part = affected_selection(graph, &rel, requested);
        proof {
            lemma_part_empty(graph, fv, rv);
        }
        hit = part.len() > 0;
        assert(ids_of(part@).len() == part.len());
    }
    if hit {
        Some(sort_strings(&rel))
    } else {
        None
    }
}

proof fn lemma_part_empty(graph: &BuildGraph, files: Seq<Seq<char>>, selection: Seq<Seq<char>>)
    ensures
        affected_part(graph, files, selection).len() > 0 <==> target_hit(graph, selection, files),
    decreases selection.len(),
{
    if selection.len() > 0 {
        let rest = selection.drop_last();
        lemma_part_empty(graph, files, rest);
        if target_hit(graph, rest, files) {
            let i = choose|i: int| 0 <= i < rest.len() && affects(graph, files, #[trigger] rest[i]);
            assert(affects(graph, files, selection[i]));
        }
        if affects(graph, files, selection.last()) {
            assert(affects(graph, files, selection[selection.len() - 1]));
        }
        if target_hit(graph, selection, files) {
            let i = choose|i: int| 0 <= i < selection.len() && affects(graph, files, #[trigger] selection[i]);
            if i < rest.len() {
                assert(affects(graph, files, rest[i]));
            }
        }
    }
}

/// A wider subscription reports no less: what concerns a part of the scope
/// concerns the whole.
pub proof fn law_wider_scope(graph: &BuildGraph, a: Seq<Seq<char>>, b: Seq<Seq<char>>, globs: Seq<Seq<char>>, files: Seq<Seq<char>>)
    requires
        a.len() > 0 || globs.len() > 0,
        concerns(graph, a, globs, files),
    ensures
        concerns(graph, a + b, globs, files),
{
    if target_hit(graph, a, files) {
        let i = choose|i: int| 0 <= i < a.len() && affects(graph, files, #[trigger] a[i]);
        assert(affects(graph, files, (a + b)[i]));
    }
}

/// The id of the build of a watch cycle.
pub open spec fn cycle_name(n: int) -> Seq<char> {
    "b_w_"@ + hex4(n as nat)
}

/// The builds of one watch, counted from one.
pub struct WatchCycles {
    cycle: u64,
}

impl WatchCycles {
    /// How many builds were started.
    pub closed spec fn started(&self) -> int {
        self.cycle as int
    }

    /// Starts the watch with its first build; the id comes with it.
    pub fn start() -> (r: (WatchCycles, String))
        ensures
            r.0.started() == 1,
            r.1@ == cycle_name(1),
    {
        let h = hex_number(1);
        (WatchCycles { cycle: 1 }, cat2("b_w_", h.as_str()))
    }

    /// What a change cycle does: it is announced, and unless it affects nothing
    /// a build with the returned id follows.
    pub fn change(&mut self, to_build: Vec<TargetId>) -> (r: (Event, Option<String>))
        requires
            old(self).started() < u64::MAX,
        ensures
            r.0 matches Event::WatchAffected { target_ids } && target_ids == to_build,
            r.1 is Some <==> to_build@.len() > 0,
            r.1 matches Some(id) ==> id@ == cycle_name(final(self).started()),
            final(self).started() == old(self).started() + (if to_build@.len() > 0 { 1int } else { 0int }),
    {
        if to_build.len() == 0 {
            return (Event::WatchAffected { target_ids: to_build }, None);
        }
        self.cycle = self.cycle + 1;
        let h = hex_number(self.cycle);
        (Event::WatchAffected { target_ids: to_build }, Some(cat2("b_w_", h.as_str())))
    }
}

/// A subscription to the targets affected since a revision: it reports the set
/// at first, and then whenever it is another one.
pub struct AffectedFeed {
    base: String,
    last: Option<Vec<TargetId>>,
}

impl AffectedFeed {
    pub closed spec fn base(&self) -> Seq<char> {
        self.base@
    }

    /// The set that was reported last; none after an error.
    pub closed spec fn last(&self) -> Option<Seq<Seq<char>>> {
        match self.last {
            Some(v) => Some(ids_of(v@)),
            None => None,
        }
    }

    pub fn new(base: String) -> (r: AffectedFeed)
        ensures
            r.base() == base@,
            r.last() is None,
    {
        AffectedFeed { base, last: None }
    }

    /// What to report when the set was computed, or could not be.
    pub fn computed(&mut self, result: Result<Vec<TargetId>, String>) -> (r: Option<Event>)
        ensures
            final(self).base() == old(self).base(),
            result matches Ok(ids) ==> {
                &&& final(self).last() == Some(ids_of(ids@))
                &&& r is None <==> old(self).last() == Some(ids_of(ids@))
                &&& (r is Some ==> (r->0 matches Event::AffectedChanged { base, target_ids } && base@ == old(self).base() && ids_of(target_ids@) == ids_of(ids@)))
            },
            result matches Err(e) ==> {
                &&& final(self).last() is None
                &&& r is Some
                &&& (r->0 matches Event::AffectedError { base, message } && base@ == old(self).base() && message@ == e@)
            },
    {
        match result {
            Ok(ids) => {
                let same: bool = match &self.last {
                    Some(v) => same_ids(v, &ids),
                    None => false,
                };
                if same {
                    None
                } else {
                    let copy = crate::model::copy_ids(&ids);
                    self.last = Some(ids);
                    Some(Event::AffectedChanged { base: self.base.clone(), target_ids: copy })
                }
            },
            Err(message) => {
                self.last = None;
                Some(Event::AffectedError { base: self.base.clone(), message })
            },
        }
    }
}

/// Whether two lists hold the same labels in the same order.
fn same_ids(a: &Vec<TargetId>, b: &Vec<TargetId>) -> (r: bool)
    ensures
        r == (ids_of(a@) == ids_of(b@)),
{
    let ghost av = ids_of(a@);
    let ghost bv = ids_of(b@);
    if a.len() != b.len() {
        assert(av.len() != bv.len());
        return false;
    }
    let mut i: usize = 0;
    while i < a.len()
        invariant
            i <= a.len(),
            a.len() == b.len(),
            av == ids_of(a@),
            bv == ids_of(b@),
            forall|k: int| 0 <= k < i ==> av[k] == bv[k],
        decreases a.len() - i,
    {
        assert(av[i as int] == a@[i as int]@ && bv[i as int] == b@[i as int]@);
        if !a[i].same(&b[i]) {
            assert(av[i as int] != bv[i as int]);
            return false;
        }
        i = i + 1;
    }
    assert(av == bv);
    true
}

/// The targets affected by the files that changed since a revision, or why the
/// files are not known.
pub fn compute_affected(graph: &BuildGraph, base: &str, changed: Result<Vec<String>, String>) -> (r: Result<Vec<TargetId>, String>)
    requires
        graph.well_formed(),
    ensures
        r is Ok <==> changed is Ok,
        r matches Ok(v) ==> crate::order::ascending(ids_of(v@)) && forall|x: Seq<char>| ids_of(v@).contains(x) <==> affects(graph, strs(changed->Ok_0@), x),
        r matches Err(e) ==> e@ == "git diff against "@ + base@ + ": "@ + changed->Err_0@,
{
    reveal(affects);
    match changed {
        Ok(files) => Ok(affected_targets(graph, &files)),
        Err(e) => Err(cat4("git diff against ", base, ": ", e.as_str())),
    }
}

/// The package directories of the targets, below the workspace.
pub open spec fn package_dirs(root: Seq<char>, ids: Seq<Seq<char>>) -> Seq<Seq<char>>
    decreases ids.len(),
{
    if ids.len() == 0 {
        Seq::<Seq<char>>::empty()
    } else {
        let rest = package_dirs(root, ids.drop_last());
        let pkg = split_label(ids.last()).0;
        if pkg.len() > 0 {
            rest.push(joined(root, pkg))
        } else {
            rest
        }
    }
}

/// Where configuration files can change: the workspace root and the directory
/// of every package, each once, in path order.
pub fn config_watch_dirs(root: &str, graph: &BuildGraph) -> (r: Vec<String>)
    ensures
        strs(r@) == path_set(seq![root@] + package_dirs(root@, graph.ids())),
{
    let mut dirs: Vec<String> = Vec::new();
    dirs.push(owned(root));
    let ghost base = seq![root@];
    let ghost ids = graph.ids();
    assert(strs(dirs@) == base + package_dirs(root@, ids.take(0)));
    let n: usize = graph.len();
    let mut i: usize = 0;
    while i < n
        invariant
            i <= n,
            n == graph.specs().len(),
            ids == graph.ids(),
            strs(dirs@) == base + package_dirs(root@, ids.take(i as int)),
        decreases n - i,
    {
        let ghost before = strs(dirs@);
        assert(ids.take(i + 1).drop_last() == ids.take(i as int));
        assert(ids.take(i + 1).last() == graph.specs()[i as int].id@);
        let (pkg, _) = graph.at(i).id.split();
        if !pkg.is_empty() {
            dirs.push(path_join(root, pkg));
            assert(strs(dirs@) == before.push(joined(root@, pkg@)));
        }
        i = i + 1;
    }
    assert(ids.take(i as int) == ids);
    sort_paths(&dirs)
}

/// The path names a configuration file that a reload reacts to.
pub open spec fn names_config(path: Seq<char>) -> bool {
    let c = components(path);
    c.len() > 0 && (c.last() == "giant.yaml"@ || c.last() == "giant.json"@)
}

/// Whether a batch holds a configuration file.
pub fn config_changed(batch: &Vec<String>) -> (r: bool)
    ensures
        r <==> exists|i: int| 0 <= i < batch@.len() && names_config(#[trigger] strs(batch@)[i]),
{
    let mut i: usize = 0;
    while i < batch.len()
        invariant
            i <= batch.len(),
            forall|k: int| 0 <= k < i ==> !names_config(#[trigger] strs(batch@)[k]),
        decreases batch.len() - i,
    {
        assert(strs(batch@)[i as int] == batch@[i as int]@);
        let c = path_components(batch[i].as_str());
        if c.len() > 0 {
            assert(components(batch@[i as int]@).last() == c@[c.len() - 1]@);
            let last = c[c.len() - 1].as_str();
            if str_eq(last, "giant.yaml") || str_eq(last, "giant.json") {
                return true;
            }
        } else {
            assert(strs(c@).len() == 0);
        }
        i = i + 1;
    }
    false
}

/// What happened to a file.
#[derive(Debug, Clone, Copy, PartialEq, Eq, Structural)]
pub enum ChangeKind {
    Create,
    Modify,
    Remove,
    /// It was read, opened or closed, or nobody knows.
    Other,
}

/// Whether a change matters to a watch.
pub fn relevant_kind(kind: ChangeKind) -> (r: bool)
    ensures
        r == !(kind is Other),
{
    match kind {
        ChangeKind::Other => false,
        _ => true,
    }
}

/// Of what happened to some paths, those that reach the debouncer: none unless
/// the change matters, and none below an excluded directory.
pub open spec fn reported(paths: Seq<Seq<char>>, excludes: Seq<Seq<char>>) -> Seq<Seq<char>>
    decreases paths.len(),
{
    if paths.len() == 0 {
        Seq::<Seq<char>>::empty()
    } else {
        let rest = reported(paths.drop_last(), excludes);
        if below_any(paths.last(), excludes) {
            rest
        } else {
            rest.push(paths.last())
        }
    }
}

pub fn reported_paths(kind: ChangeKind, paths: &Vec<String>, excludes: &Vec<String>) -> (r: Vec<String>)
    ensures
        strs(r@) == (if kind is Other {
            Seq::<Seq<char>>::empty()
        } else {
            reported(strs(paths@), strs(excludes@))
        }),
{
    let mut out: Vec<String> = Vec::new();
    let ghost pv = strs(paths@);
    assert(strs(out@) == Seq::<Seq<char>>::empty());
    if !relevant_kind(kind) {
        return out;
    }
    let mut i: usize = 0;
    assert(pv.take(0) == Seq::<Seq<char>>::empty());
    while i < paths.len()
        invariant
            i <= paths.len(),
            pv == strs(paths@),
            strs(out@) == reported(pv.take(i as int), strs(excludes@)),
        decreases paths.len() - i,
    {
        let ghost before = strs(out@);
        assert(pv.take(i + 1).drop_last() == pv.take(i as int));
        assert(pv.take(i + 1).last() == paths@[i as int]@);
        if !path_below_any(paths[i].as_str(), excludes) {
            out.push(paths[i].clone());
            assert(strs(out@) == before.push(pv[i as int]));
        }
        i = i + 1;
    }
    assert(pv.take(i as int) == pv);
    out
}

/// Every declared output is left out of the watch.
pub proof fn law_outputs_excluded(root: Seq<char>, specs: Seq<TargetSpec>, t: int, k: int)
    requires
        0 <= t < specs.len(),
        0 <= k < specs[t].outputs@.len(),
    ensures
        outputs_below(root, specs).contains(joined(root, specs[t].outputs@[k]@)),
    decreases specs.len(),
{
    let front = specs.drop_last();
    let a = outputs_below(root, front);
    let b = out_paths_of(specs.last().outputs@).map_values(|o: Seq<char>| joined(root, o));
    let x = joined(root, specs[t].outputs@[k]@);
    if t < front.len() {
        assert(front[t] == specs[t]);
        law_outputs_excluded(root, front, t, k);
        let i = choose|i: int| 0 <= i < a.len() && a[i] == x;
        assert((a + b)[i] == x);
    } else {
        assert(out_paths_of(specs.last().outputs@)[k] == specs[t].outputs@[k]@);
        assert(b[k] == x);
        assert((a + b)[a.len() + k] == x);
    }
}

/// Nothing but declared outputs is left out on their account.
pub proof fn law_only_outputs_excluded(root: Seq<char>, specs: Seq<TargetSpec>, x: Seq<char>)
    requires
        outputs_below(root, specs).contains(x),
    ensures
        exists|t: int, k: int| #![trigger specs[t].outputs@[k]] 0 <= t < specs.len() && 0 <= k < specs[t].outputs@.len() && x == joined(root, specs[t].outputs@[k]@),
    decreases specs.len(),
{
    let all = outputs_below(root, specs);
    let i = choose|i: int| 0 <= i < all.len() && all[i] == x;
    if specs.len() > 0 {
        let front = specs.drop_last();
        let a = outputs_below(root, front);
        let b = out_paths_of(specs.last().outputs@).map_values(|o: Seq<char>| joined(root, o));
        let n = specs.len() - 1;
        if i < a.len() {
            assert(a[i] == x);
            law_only_outputs_excluded(root, front, x);
            let (t, k) = choose|t: int, k: int| #![trigger front[t].outputs@[k]] 0 <= t < front.len() && 0 <= k < front[t].outputs@.len() && x == joined(root, front[t].outputs@[k]@);
            assert(specs[t].outputs@[k] == front[t].outputs@[k]);
        } else {
            let k = i - a.len();
            assert(b[k] == x);
            assert(specs[n].outputs@[k]@ == out_paths_of(specs.last().outputs@)[k]);
        }
    }
}

/// What reaches the debouncer is every path that lies in no excluded directory,
/// in the order it was reported.
pub proof fn law_reported(paths: Seq<Seq<char>>, excludes: Seq<Seq<char>>)
    ensures
        reported(paths, excludes) == paths.filter(|p: Seq<char>| forall|i: int| 0 <= i < excludes.len() ==> !is_below(p, #[trigger] excludes[i])),
    decreases paths.len(),
{
    reveal(Seq::filter);
    if paths.len() > 0 {
        law_reported(paths.drop_last(), excludes);
        let p = paths.last();
        assert(below_any(p, excludes) <==> !(forall|i: int| 0 <= i < excludes.len() ==> !is_below(p, #[trigger] excludes[i])));
    } else {
        assert(reported(paths, excludes) =~= paths);
    }
}

/// A change to any input of a target makes a watch build again whatever of the
/// selection depends on it, over any chain.
pub proof fn law_change_rebuilds(graph: &BuildGraph, files: Seq<Seq<char>>, selection: Seq<Seq<char>>, chain: Seq<int>, glob: GlobPattern, i: int, k: int)
    requires
        crate::dag::is_chain(graph.edges(), chain),
        forall|j: int| 0 <= j < chain.len() ==> 0 <= #[trigger] chain[j] < graph.specs().len(),
        0 <= i < graph.specs()[chain.last()].inputs@.len(),
        graph.specs()[chain.last()].inputs@[i] == (Input::File { glob }),
        0 <= k < files.len(),
        glob_match(glob@, files[k], true, false, false),
        selection.contains(graph.specs()[chain[0]].id@),
    ensures
        affected_part(graph, files, selection).contains(graph.specs()[chain[0]].id@),
{
    let x = graph.specs()[chain[0]].id@;
    crate::selection::lemma_chain_affects(graph, files, chain, glob, i, k);
    assert(affects(graph, files, x)) by {
        reveal(affects);
        assert(graph.specs()[chain[0]].id@ == x);
    }
    lemma_part_members(graph, files, selection, x);
}

/// A watch builds nothing else again: what it builds is of the selection and
/// depends, over some chain, on a target that reads a changed file.
pub proof fn law_only_change_rebuilds(graph: &BuildGraph, files: Seq<Seq<char>>, selection: Seq<Seq<char>>, x: Seq<char>)
    requires
        affected_part(graph, files, selection).contains(x),
    ensures
        selection.contains(x),
        exists|chain: Seq<int>| #[trigger] crate::dag::is_chain(graph.edges(), chain) && 0 <= chain[0] < graph.specs().len() && graph.specs()[chain[0]].id@ == x && crate::selection::reads_changed(graph, files, chain.last()),
{
    lemma_part_members(graph, files, selection, x);
    reveal(affects);
    let t = choose|t: int| 0 <= t < graph.specs().len() && (#[trigger] graph.specs()[t]).id@ == x && is_affected(graph, files, t);
    let chain = crate::selection::lemma_affected_chain(graph, files, t);
    assert(crate::dag::is_chain(graph.edges(), chain));
}

proof fn lemma_part_members(graph: &BuildGraph, files: Seq<Seq<char>>, selection: Seq<Seq<char>>, x: Seq<char>)
    ensures
        affected_part(graph, files, selection).contains(x) <==> selection.contains(x) && affects(graph, files, x),
    decreases selection.len(),
{
    if selection.len() > 0 {
        let f = selection.drop_last();
        lemma_part_members(graph, files, f, x);
        assert(selection =~= f.push(selection.last()));
        crate::order::lemma_push_contains(f, selection.last(), x);
        crate::order::lemma_push_contains(affected_part(graph, files, f), selection.last(), x);
    }
}

/// A batch concerns a subscription to everything, one with a glob that matches
/// any of its paths, and one that asks for a target it affects; it concerns no
/// other.
pub proof fn law_concerns(graph: &BuildGraph, requested: Seq<Seq<char>>, globs: Seq<Seq<char>>, files: Seq<Seq<char>>)
    ensures
        requested.len() == 0 && globs.len() == 0 ==> concerns(graph, requested, globs, files),
        forall|i: int, k: int| 0 <= i < globs.len() && 0 <= k < files.len() && #[trigger] glob_match(globs[i], files[k], true, false, false) ==> concerns(graph, requested, globs, files),
        affected_part(graph, files, requested).len() > 0 ==> concerns(graph, requested, globs, files),
        concerns(graph, requested, globs, files) ==> (requested.len() == 0 && globs.len() == 0) || affected_part(graph, files, requested).len() > 0 || exists|i: int, k: int|
            0 <= i < globs.len() && 0 <= k < files.len() && #[trigger] glob_match(globs[i], files[k], true, false, false),
{
    lemma_part_empty(graph, files, requested);
    assert forall|i: int, k: int| 0 <= i < globs.len() && 0 <= k < files.len() && #[trigger] glob_match(globs[i], files[k], true, false, false) implies concerns(graph, requested, globs, files) by {
        assert(matches_loosely(globs[i], files[k]));
        assert(glob_hit(globs, files));
    }
    if glob_hit(globs, files) {
        let (i, k) = choose|i: int, k: int| #![trigger globs[i], files[k]] 0 <= i < globs.len() && 0 <= k < files.len() && matches_loosely(globs[i], files[k]);
        assert(glob_match(globs[i], files[k], true, false, false));
    }
}

/// The directory of every package that has a target is watched for
/// configuration files.
pub proof fn law_package_watched(root: Seq<char>, ids: Seq<Seq<char>>, i: int, package: Seq<char>, name: Seq<char>)
    requires
        0 <= i < ids.len(),
        ids[i] == "//"@ + package + ":"@ + name,
        package.len() > 0,
        !name.contains(':'),
    ensures
        package_dirs(root, ids).contains(joined(root, package)),
    decreases ids.len(),
{
    let f = ids.drop_last();
    let rest = package_dirs(root, f);
    let pkg = split_label(ids.last()).0;
    crate::order::lemma_push_contains(rest, joined(root, pkg), joined(root, package));
    if i < f.len() {
        assert(f[i] == ids[i]);
        law_package_watched(root, f, i, package, name);
    } else {
        crate::model::law_split_label(package, name);
    }
}

/// A change of `giant.yaml` or `giant.json`, in whichever directory, is a change of
/// the configuration.
pub proof fn law_config_named(dir: Seq<char>, path: Seq<char>)
    requires
        dir.len() > 0,
    ensures
        path == joined(dir, "giant.yaml"@) || path == joined(dir, "giant.json"@) ==> names_config(path),
        names_config(path) ==> components(path).len() > 0 && seq!["giant.yaml"@, "giant.json"@].contains(components(path).last()),
{
    reveal_strlit("giant.yaml");
    reveal_strlit("giant.json");
    crate::paths::law_joined(dir, "giant.yaml"@);
    crate::paths::law_joined(dir, "giant.json"@);
    crate::paths::lemma_bare_name("giant.yaml"@);
    crate::paths::lemma_bare_name("giant.json"@);
    let two = seq!["giant.yaml"@, "giant.json"@];
    assert(two[0] == "giant.yaml"@ && two[1] == "giant.json"@);
}

/// Each path of a batch is seen from the workspace, in the order of the batch.
pub proof fn law_seen_from(batch: Seq<Seq<char>>, root: Seq<char>, i: int)
    requires
        0 <= i < batch.len(),
    ensures
        seen_from(batch, root).len() == batch.len(),
        seen_from(batch, root)[i] == relative_to(batch[i], root),
{
}

/// Two cycles of a watch have different build ids.
pub proof fn law_cycle_names_distinct(a: int, b: int)
    requires
        0 <= a,
        0 <= b,
        cycle_name(a) == cycle_name(b),
    ensures
        a == b,
{
    let n = "b_w_"@.len() as int;
    assert(cycle_name(a).skip(n) == hex4(a as nat));
    assert(cycle_name(b).skip(n) == hex4(b as nat));
    crate::text::lemma_hex4_injective(a as nat, b as nat);
}

/// A path that changed is in the batch from then on, once, and none that was in it
/// is lost.
pub proof fn law_change_pending(v: Seq<Seq<char>>, path: Seq<char>, after: Seq<Seq<char>>, i: int)
    requires
        after == (if names_path(v, path) {
            v
        } else {
            v.push(path)
        }),
        forall|a: int, b: int| 0 <= a < b < v.len() ==> components(#[trigger] v[a]) != components(#[trigger] v[b]),
    ensures
        exists|k: int| 0 <= k < after.len() && components(#[trigger] after[k]) == components(path),
        0 <= i < v.len() ==> after[i] == v[i],
        forall|a: int, b: int| 0 <= a < b < after.len() ==> components(#[trigger] after[a]) != components(#[trigger] after[b]),
{
    if !names_path(v, path) {
        assert(after[v.len() as int] == path);
        assert forall|a: int, b: int| 0 <= a < b < after.len() implies components(#[trigger] after[a]) != components(#[trigger] after[b]) by {
            assert(after[a] == v[a]);
            if b < v.len() {
                assert(after[b] == v[b]);
            }
        }
    }
}

} // verus!
