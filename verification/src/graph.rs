//! The build graph: targets and the dependencies between them.
//!
//! Targets are kept in the order they were added. An edge leads from a target
//! to a target it depends on, either because it says so or because one of its
//! input globs matches one of the other's outputs.

use crate::dag::{
    is_chain, dag_add_edge, dag_add_node, dag_clear_edges, dag_closure, dag_edges, dag_new, dag_predecessors,
    dag_size, dag_successors, dag_toposort, directed, on_cycle, reached, within,
    Dag,
};
use crate::model::{ids_of, Input, TargetId, TargetSpec};
use crate::order::{ascending, sorted_set};
use crate::pattern::{glob_match, matches_loosely, GlobPattern};
use crate::text::{cat2, cat3, cat4, cat5, str_eq, strs};
use crate::walk::{quoted, str_debug};
use vstd::prelude::*;

verus! {

#[derive(Debug, PartialEq, Eq)]
pub enum GraphError {
    DuplicateId(TargetId),
    UnknownDep { parent: TargetId, missing: TargetId },
    Cycle(String),
    OutputCollision { path: String, a: TargetId, b: TargetId },
}

impl GraphError {
    /// The error in words.
    pub open spec fn text(&self) -> Seq<char> {
        match *self {
            GraphError::DuplicateId(id) => "duplicate target id: "@ + id@,
            GraphError::UnknownDep { parent, missing } => "target "@ + shown_id(parent@) + " has dep on unknown target "@ + shown_id(missing@),
            GraphError::Cycle(m) => "dependency cycle: "@ + m@,
            GraphError::OutputCollision { path, a, b } => "two targets produce the same output "@ + path@ + ": "@ + a@ + (" and "@ + b@),
        }
    }

    pub fn message(&self) -> (r: String)
        ensures
            r@ == self.text(),
    {
        match self {
            GraphError::DuplicateId(id) => cat2("duplicate target id: ", id.as_str()),
            GraphError::UnknownDep { parent, missing } => {
                let p = show_id(parent);
                let m = show_id(missing);
                cat4("target ", p.as_str(), " has dep on unknown target ", m.as_str())
            },
            GraphError::Cycle(m) => cat2("dependency cycle: ", m.as_str()),
            GraphError::OutputCollision { path, a, b } => {
                let both = cat2(" and ", b.as_str());
                cat5("two targets produce the same output ", path.as_str(), ": ", a.as_str(), both.as_str())
            },
        }
    }
}

/// A label as a message about dependencies shows it.
pub open spec fn shown_id(id: Seq<char>) -> Seq<char> {
    "TargetId("@ + str_debug(id) + ")"@
}

fn show_id(id: &TargetId) -> (r: String)
    ensures
        r@ == shown_id(id@),
{
    let q = quoted(id.as_str());
    cat3("TargetId(", q.as_str(), ")")
}

/// The labels of a list of targets.
pub open spec fn spec_ids(specs: Seq<TargetSpec>) -> Seq<Seq<char>> {
    specs.map_values(|t: TargetSpec| t.id@)
}

/// Target `p` names target `d` among its dependencies.
pub open spec fn declares(specs: Seq<TargetSpec>, p: int, d: int) -> bool {
    ids_of(specs[p].deps@).contains(specs[d].id@)
}

/// Input `i` of target `p` is a glob that matches the path `out`.
pub open spec fn input_matches(input: Input, out: Seq<char>) -> bool {
    match input {
        Input::File { glob } => matches_loosely(glob@, out),
        Input::Fingerprint { .. } => false,
    }
}

/// An input glob of target `p` matches an output of another target `d`.
pub open spec fn feeds(specs: Seq<TargetSpec>, p: int, d: int) -> bool {
    p != d && exists|i: int, k: int|
        #![trigger specs[p].inputs@[i], specs[d].outputs@[k]]
        0 <= i < specs[p].inputs@.len() && 0 <= k < specs[d].outputs@.len() && input_matches(
            specs[p].inputs@[i],
            specs[d].outputs@[k]@,
        )
}

/// All edges that a list of targets gives rise to.
pub open spec fn edges_of(specs: Seq<TargetSpec>) -> Set<(int, int)> {
    Set::new(
        |e: (int, int)|
            0 <= e.0 < specs.len() && 0 <= e.1 < specs.len() && (declares(specs, e.0, e.1) || feeds(
                specs,
                e.0,
                e.1,
            )),
    )
}

/// Some target names a dependency that is no target.
pub open spec fn has_unknown_dep(specs: Seq<TargetSpec>) -> bool {
    exists|p: int, i: int| unknown_dep_at(specs, p, i)
}

pub open spec fn unknown_dep_at(specs: Seq<TargetSpec>, p: int, i: int) -> bool {
    &&& 0 <= p < specs.len()
    &&& 0 <= i < specs[p].deps@.len()
    &&& !spec_ids(specs).contains(specs[p].deps@[i]@)
}

/// Output `j` of target `t` exists.
pub open spec fn output_at(specs: Seq<TargetSpec>, t: int, j: int) -> bool {
    0 <= t < specs.len() && 0 <= j < specs[t].outputs@.len()
}

/// Two different targets declare the same output path.
pub open spec fn collision_at(specs: Seq<TargetSpec>, t: int, j: int, u: int, k: int) -> bool {
    &&& output_at(specs, t, j)
    &&& output_at(specs, u, k)
    &&& t != u
    &&& specs[t].outputs@[j]@ == specs[u].outputs@[k]@
}

pub open spec fn has_collision(specs: Seq<TargetSpec>) -> bool {
    exists|t: int, j: int, u: int, k: int| collision_at(specs, t, j, u, k)
}

/// Some target depends on itself through one or more edges.
pub open spec fn has_cycle(edges: Set<(int, int)>) -> bool {
    exists|v: int| on_cycle(edges, v)
}

/// Two lists of targets that differ at most in the inferred dependencies.
pub open spec fn same_targets(a: Seq<TargetSpec>, b: Seq<TargetSpec>) -> bool {
    &&& a.len() == b.len()
    &&& forall|i: int|
        0 <= i < a.len() ==> (#[trigger] a[i]) == (TargetSpec {
            inferred_deps: a[i].inferred_deps,
            ..b[i]
        })
}

/// `x` is a dependency of `specs[p]` that was inferred and not declared.
pub open spec fn inferred(specs: Seq<TargetSpec>, p: int, x: Seq<char>) -> bool {
    exists|d: int|
        0 <= d < specs.len() && (#[trigger] specs[d]).id@ == x && feeds(specs, p, d) && !declares(
            specs,
            p,
            d,
        )
}

/// The message of a cycle through `id`.
pub open spec fn cycle_text(id: Seq<char>) -> Seq<char> {
    "cycle includes target "@ + id
}

/// The targets of a workspace and their dependencies.
pub struct BuildGraph {
    targets: Vec<TargetSpec>,
    g: Dag,
}

/// An output: its path, the position of the target that produces it, and its
/// place among the outputs of that target.
pub struct Producer {
    pub path: String,
    pub target: usize,
    pub index: usize,
}

/// Declaration `(a, i)` comes before declaration `(t, j)`.
pub open spec fn declared_before(a: int, i: int, t: int, j: int) -> bool {
    a < t || (a == t && i < j)
}

/// Output `i` of target `a` is in the list.
pub open spec fn listed(producers: Seq<Producer>, a: int, i: int) -> bool {
    exists|q: int|
        0 <= q < producers.len() && (#[trigger] producers[q]).target == a && producers[q].index == i
}

/// `producers` holds the output declarations before `(t, j)`, each with its
/// path, and no others.
pub open spec fn lists_outputs(producers: Seq<Producer>, specs: Seq<TargetSpec>, t: int, j: int) -> bool {
    &&& forall|q: int|
        0 <= q < producers.len() ==> {
            let p = #[trigger] producers[q];
            &&& output_at(specs, p.target as int, p.index as int)
            &&& declared_before(p.target as int, p.index as int, t, j)
            &&& p.path@ == specs[p.target as int].outputs@[p.index as int]@
        }
    &&& forall|a: int, i: int|
        #[trigger] output_at(specs, a, i) && declared_before(a, i, t, j) ==> listed(producers, a, i)
}

/// Some hit of `hits` belongs to a producer at position `d`.
pub open spec fn hit_from(
    producers: Seq<Producer>,
    hits: Seq<Vec<bool>>,
    d: int,
) -> bool {
    exists|i: int, q: int|
        #![trigger hits[i]@[q]]
        0 <= i < hits.len() && 0 <= q < producers.len() && hits[i]@[q] && producers[q].target == d
}

/// The positions, other than `p`, of the producers that some input hits.
///
/// `hits[i][q]` says whether input `i` of the target at `p` matches the path of
/// producer `q`.
pub fn fed_by(p: usize, producers: &Vec<Producer>, hits: &Vec<Vec<bool>>) -> (r: Vec<usize>)
    requires
        forall|i: int| 0 <= i < hits.len() ==> (#[trigger] hits@[i])@.len() == producers.len(),
    ensures
        r@.no_duplicates(),
        forall|d: usize| r@.contains(d) <==> d != p && hit_from(producers@, hits@, d as int),
{
    let mut out: Vec<usize> = Vec::new();
    let mut q: usize = 0;
    while q < producers.len()
        invariant
            q <= producers.len(),
            forall|i: int| 0 <= i < hits.len() ==> (#[trigger] hits@[i])@.len() == producers.len(),
            out@.no_duplicates(),
            forall|d: usize| #[trigger] out@.contains(d) <==> d != p && exists|i: int, s: int|
                #![trigger hits@[i]@[s]]
                0 <= i < hits.len() && 0 <= s < q && hits@[i]@[s] && producers@[s].target == d,
        decreases producers.len() - q,
    {
        let d: usize = producers[q].target;
        let mut hit: bool = false;
        let mut i: usize = 0;
        while i < hits.len()
            invariant
                i <= hits.len(),
                q < producers.len(),
                forall|i: int| 0 <= i < hits.len() ==> (#[trigger] hits@[i])@.len() == producers.len(),
                hit <==> exists|k: int| 0 <= k < i && (#[trigger] hits@[k])@[q as int],
            decreases hits.len() - i,
        {
            if hits[i][q] {
                hit = true;
            }
            i = i + 1;
        }
        let ghost before = out@;
        if hit && d != p && !holds(&out, d) {
            out.push(d);
        }
        proof {
            assert forall|x: usize| #[trigger] out@.contains(x) <==> x != p && exists|i: int, s: int|
                #![trigger hits@[i]@[s]]
                0 <= i < hits.len() && 0 <= s < q + 1 && hits@[i]@[s] && producers@[s].target == x by {
                if out@ != before {
                    crate::order::lemma_push_contains(before, d, x);
                }
                if x == d && x != p && hit {
                    let k = choose|k: int| 0 <= k < hits.len() && (#[trigger] hits@[k])@[q as int];
                    assert(hits@[k]@[q as int]);
                }
                if before.contains(x) {
                    let (i, s) = choose|i: int, s: int|
                        #![trigger hits@[i]@[s]]
                        0 <= i < hits.len() && 0 <= s < q && hits@[i]@[s] && producers@[s].target == x;
                    assert(hits@[i]@[s]);
                }
                if x != p && exists|i: int, s: int|
                    #![trigger hits@[i]@[s]]
                    0 <= i < hits.len() && 0 <= s < q + 1 && hits@[i]@[s] && producers@[s].target == x {
                    let (i, s) = choose|i: int, s: int|
                        #![trigger hits@[i]@[s]]
                        0 <= i < hits.len() && 0 <= s < q + 1 && hits@[i]@[s] && producers@[s].target == x;
                    if s == q {
                        assert(hits@[i]@[q as int]);
                    } else {
                        assert(before.contains(x));
                    }
                }
            }
        }
        q = q + 1;
    }
    out
}

/// Whether `x` is one of `v`.
fn holds(v: &Vec<usize>, x: usize) -> (r: bool)
    ensures
        r == v@.contains(x),
{
    let mut i: usize = 0;
    while i < v.len()
        invariant
            i <= v.len(),
            forall|k: int| 0 <= k < i ==> v@[k] != x,
        decreases v.len() - i,
    {
        if v[i] == x {
            return true;
        }
        i = i + 1;
    }
    false
}

/// For each input and each producer, whether the input is a glob that matches
/// the producer's path.
pub fn match_table(inputs: &Vec<Input>, producers: &Vec<Producer>) -> (hits: Vec<Vec<bool>>)
    ensures
        hits.len() == inputs.len(),
        forall|i: int| 0 <= i < hits.len() ==> (#[trigger] hits@[i])@.len() == producers.len(),
        forall|i: int, q: int|
            #![trigger hits@[i]@[q]]
            0 <= i < hits.len() && 0 <= q < producers.len() ==> hits@[i]@[q] == input_matches(
                inputs@[i],
                producers@[q].path@,
            ),
{
    let mut hits: Vec<Vec<bool>> = Vec::new();
    let mut i: usize = 0;
    while i < inputs.len()
        invariant
            i <= inputs.len(),
            hits.len() == i,
            forall|k: int| 0 <= k < hits.len() ==> (#[trigger] hits@[k])@.len() == producers.len(),
            forall|k: int, q: int|
                #![trigger hits@[k]@[q]]
                0 <= k < hits.len() && 0 <= q < producers.len() ==> hits@[k]@[q] == input_matches(
                    inputs@[k],
                    producers@[q].path@,
                ),
        decreases inputs.len() - i,
    {
        let mut row: Vec<bool> = Vec::new();
        let mut q: usize = 0;
        while q < producers.len()
            invariant
                i < inputs.len(),
                q <= producers.len(),
                row.len() == q,
                forall|s: int| 0 <= s < q ==> #[trigger] row@[s] == input_matches(
                    inputs@[i as int],
                    producers@[s].path@,
                ),
            decreases producers.len() - q,
        {
            let hit: bool = match &inputs[i] {
                Input::File { glob } => glob.matches(producers[q].path.as_str()),
                Input::Fingerprint { .. } => false,
            };
            row.push(hit);
            q = q + 1;
        }
        hits.push(row);
        i = i + 1;
    }
    hits
}

impl BuildGraph {
    /// The targets, in the order they were added.
    pub closed spec fn specs(&self) -> Seq<TargetSpec> {
        self.targets@
    }

    /// The edges between positions, from a target to its dependencies.
    pub closed spec fn edges(&self) -> Set<(int, int)> {
        dag_edges(self.g)
    }

    /// The labels, by position.
    pub open spec fn ids(&self) -> Seq<Seq<char>> {
        spec_ids(self.specs())
    }

    /// No label occurs twice, and every edge joins two targets.
    pub closed spec fn well_formed(&self) -> bool {
        &&& spec_ids(self.targets@).no_duplicates()
        &&& dag_size(self.g) == self.targets@.len()
        &&& within(self.targets@.len() as int, dag_edges(self.g))
    }

    /// What `well_formed` says of the labels and the edges.
    pub proof fn lemma_well_formed(&self)
        requires
            self.well_formed(),
        ensures
            self.ids().no_duplicates(),
            within(self.ids().len() as int, self.edges()),
    {
    }

    /// The target labelled `a` depends directly on the target labelled `b`.
    pub open spec fn depends(&self, a: Seq<char>, b: Seq<char>) -> bool {
        exists|p: int, d: int|
            #![trigger self.edges().contains((p, d))]
            0 <= p < self.ids().len() && 0 <= d < self.ids().len() && self.ids()[p] == a
                && self.ids()[d] == b && self.edges().contains((p, d))
    }

    pub fn new() -> (r: BuildGraph)
        ensures
            r.well_formed(),
            r.specs() == Seq::<TargetSpec>::empty(),
            r.edges() == Set::<(int, int)>::empty(),
    {
        BuildGraph { targets: Vec::new(), g: dag_new() }
    }

    /// The position of the target labelled `id`.
    pub fn position(&self, id: &TargetId) -> (r: Option<usize>)
        requires
            self.well_formed(),
        ensures
            r is Some <==> self.ids().contains(id@),
            r matches Some(i) ==> i < self.ids().len() && self.ids()[i as int] == id@,
    {
        let mut i: usize = 0;
        while i < self.targets.len()
            invariant
                i <= self.targets.len(),
                forall|k: int| 0 <= k < i ==> self.ids()[k] != id@,
            decreases self.targets.len() - i,
        {
            assert(self.ids()[i as int] == self.targets@[i as int].id@);
            if self.targets[i].id.same(id) {
                return Some(i);
            }
            i = i + 1;
        }
        None
    }

    /// Adds a target. Edges are derived by `build_edges_and_validate`.
    pub fn add_target(&mut self, spec: TargetSpec) -> (r: Result<(), GraphError>)
        requires
            old(self).well_formed(),
        ensures
            final(self).well_formed(),
            r is Ok <==> !old(self).ids().contains(spec.id@),
            r is Ok ==> final(self).specs() == old(self).specs().push(spec) && final(self).edges()
                == old(self).edges(),
            r is Err ==> *final(self) == *old(self),
            r matches Err(e) ==> (e matches GraphError::DuplicateId(id) && id@ == spec.id@),
    {
        if self.position(&spec.id).is_some() {
            return Err(GraphError::DuplicateId(spec.id));
        }
        let ghost before = self.targets@;
        let n = dag_add_node(&mut self.g);
        self.targets.push(spec);
        proof {
            let a = spec_ids(before);
            let b = spec_ids(self.targets@);
            assert(b == a.push(spec.id@));
            assert forall|i: int, j: int| 0 <= i < b.len() && 0 <= j < b.len() && i != j implies b[i]
                != b[j] by {
                if i == a.len() {
                    assert(a[j] == b[j]);
                    assert(a.contains(a[j]));
                } else if j == a.len() {
                    assert(a[i] == b[i]);
                    assert(a.contains(a[i]));
                }
            }
            assert(within(self.targets@.len() as int, dag_edges(self.g)));
        }
        Ok(())
    }

    pub fn get(&self, id: &TargetId) -> (r: Option<&TargetSpec>)
        requires
            self.well_formed(),
        ensures
            r is Some <==> self.ids().contains(id@),
            r matches Some(t) ==> t.id@ == id@ && self.specs().contains(*t),
    {
        match self.position(id) {
            Some(i) => {
                assert(self.specs()[i as int] == self.targets@[i as int]);
                Some(&self.targets[i])
            },
            None => None,
        }
    }

    /// The target at position `i`.
    pub fn at(&self, i: usize) -> (r: &TargetSpec)
        requires
            i < self.specs().len(),
        ensures
            *r == self.specs()[i as int],
    {
        &self.targets[i]
    }

    pub fn len(&self) -> (r: usize)
        ensures
            r == self.specs().len(),
    {
        self.targets.len()
    }

    pub fn is_empty(&self) -> (r: bool)
        ensures
            r == (self.specs().len() == 0),
    {
        self.targets.len() == 0
    }

    /// The labels of the targets that carry `tag`, sorted.
    pub fn ids_with_tag(&self, tag: &str) -> (r: Vec<TargetId>)
        requires
            self.well_formed(),
        ensures
            ascending(ids_of(r@)),
            forall|x: Seq<char>| ids_of(r@).contains(x) <==> exists|i: int|
                0 <= i < self.specs().len() && (#[trigger] self.specs()[i]).id@ == x && strs(
                    self.specs()[i].tags@,
                ).contains(tag@),
    {
        let n: usize = self.targets.len();
        let mut flags: Vec<bool> = Vec::new();
        let mut i: usize = 0;
        while i < n
            invariant
                n == self.targets.len(),
                i <= n,
                flags.len() == i,
                forall|k: int| 0 <= k < i ==> #[trigger] flags@[k] == strs(self.targets@[k].tags@).contains(tag@),
            decreases n - i,
        {
            flags.push(crate::text::member(&self.targets[i].tags, tag));
            i = i + 1;
        }
        let r = self.flagged(&flags);
        proof {
            assert forall|x: Seq<char>| ids_of(r@).contains(x) <==> exists|i: int|
                0 <= i < self.specs().len() && (#[trigger] self.specs()[i]).id@ == x && strs(
                    self.specs()[i].tags@,
                ).contains(tag@) by {
                if ids_of(r@).contains(x) {
                    let i = choose|i: int| 0 <= i < n && #[trigger] flags@[i] && self.ids()[i] == x;
                    assert(self.specs()[i].id@ == x);
                }
                if exists|i: int| 0 <= i < self.specs().len() && (#[trigger] self.specs()[i]).id@ == x && strs(self.specs()[i].tags@).contains(tag@) {
                    let i = choose|i: int| 0 <= i < self.specs().len() && (#[trigger] self.specs()[i]).id@ == x && strs(self.specs()[i].tags@).contains(tag@);
                    assert(flags@[i] && self.ids()[i] == x);
                }
            }
        }
        r
    }

    /// The labels of the flagged positions, sorted.
    pub fn flagged(&self, flags: &Vec<bool>) -> (r: Vec<TargetId>)
        requires
            flags.len() == self.specs().len(),
        ensures
            ascending(ids_of(r@)),
            forall|x: Seq<char>| ids_of(r@).contains(x) <==> exists|i: int|
                0 <= i < flags.len() && #[trigger] flags@[i] && self.ids()[i] == x,
    {
        let mut names: Vec<String> = Vec::new();
        let mut i: usize = 0;
        while i < flags.len()
            invariant
                i <= flags.len(),
                flags.len() == self.targets@.len(),
                forall|x: Seq<char>| #[trigger] strs(names@).contains(x) <==> exists|k: int|
                    0 <= k < i && #[trigger] flags@[k] && self.ids()[k] == x,
            decreases flags.len() - i,
        {
            let ghost before = strs(names@);
            let ghost id = self.ids()[i as int];
            assert(id == self.targets@[i as int].id@);
            if flags[i] {
                names.push(crate::text::owned(self.targets[i].id.as_str()));
                assert(strs(names@) == before.push(id));
            }
            proof {
                assert forall|x: Seq<char>| #[trigger] strs(names@).contains(x) <==> exists|k: int|
                    0 <= k < i + 1 && #[trigger] flags@[k] && self.ids()[k] == x by {
                    if flags@[i as int] {
                        crate::order::lemma_push_contains(before, id, x);
                    }
                    if before.contains(x) {
                        let k = choose|k: int| 0 <= k < i && #[trigger] flags@[k] && self.ids()[k] == x;
                        assert(flags@[k]);
                    }
                    if exists|k: int| 0 <= k < i + 1 && #[trigger] flags@[k] && self.ids()[k] == x {
                        let k = choose|k: int| 0 <= k < i + 1 && #[trigger] flags@[k] && self.ids()[k] == x;
                        if k < i {
                            assert(before.contains(x));
                        }
                    }
                }
            }
            i = i + 1;
        }
        let sorted = sorted_set(&names);
        ids_from(&sorted)
    }

    /// Every output with its producer, or two targets whose outputs collide. A
    /// target may name a path of its own more than once.
    fn producers(&self) -> (r: Result<Vec<Producer>, GraphError>)
        requires
            self.well_formed(),
        ensures
            r is Ok <==> !has_collision(self.specs()),
            r matches Ok(ps) ==> lists_outputs(ps@, self.specs(), self.specs().len() as int, 0),
            r matches Err(e) ==> collision_error(self.specs(), e),
    {
        let ghost specs = self.targets@;
        let mut out: Vec<Producer> = Vec::new();
        let mut t: usize = 0;
        while t < self.targets.len()
            invariant
                t <= self.targets.len(),
                specs == self.targets@,
                self.specs() == specs,
                self.well_formed(),
                lists_outputs(out@, specs, t as int, 0),
                distinct_before(specs, t as int, 0),
            decreases self.targets.len() - t,
        {
            let mut j: usize = 0;
            while j < self.targets[t].outputs.len()
                invariant
                    t < self.targets.len(),
                    specs == self.targets@,
                    self.specs() == specs,
                    self.well_formed(),
                    j <= specs[t as int].outputs@.len(),
                    lists_outputs(out@, specs, t as int, j as int),
                    distinct_before(specs, t as int, j as int),
                decreases specs[t as int].outputs@.len() - j,
            {
                let path = self.targets[t].outputs[j].as_str();
                match find_other(&out, path, t) {
                    Some(q) => {
                        let u: usize = out[q].target;
                        let e = GraphError::OutputCollision {
                            path: crate::text::owned(path),
                            a: self.targets[u].id.clone(),
                            b: self.targets[t].id.clone(),
                        };
                        proof {
                            assert(collision_at(specs, u as int, out@[q as int].index as int, t as int, j as int));
                            self.lemma_well_formed();
                            assert(self.ids()[u as int] == specs[u as int].id@);
                            assert(self.ids()[t as int] == specs[t as int].id@);
                        }
                        return Err(e);
                    },
                    None => {},
                }
                let ghost prior = out@;
                out.push(Producer { path: crate::text::owned(path), target: t, index: j });
                proof {
                    lemma_lists_step(prior, out@, specs, t as int, j as int);
                }
                j = j + 1;
            }
            proof {
                lemma_lists_row(out@, specs, t as int, j as int);
            }
            t = t + 1;
        }
        proof {
            assert forall|a: int, i: int, b: int, k: int| !#[trigger] collision_at(specs, a, i, b, k) by {}
        }
        Ok(out)
    }
}

/// An entry with the path `path` of a target other than `t`.
fn find_other(v: &Vec<Producer>, path: &str, t: usize) -> (r: Option<usize>)
    ensures
        r matches Some(q) ==> q < v.len() && v@[q as int].path@ == path@ && v@[q as int].target != t,
        r is None ==> forall|s: int| 0 <= s < v.len() ==> (#[trigger] v@[s]).path@ != path@ || v@[s].target == t,
{
    let mut q: usize = 0;
    while q < v.len()
        invariant
            q <= v.len(),
            forall|s: int| 0 <= s < q ==> (#[trigger] v@[s]).path@ != path@ || v@[s].target == t,
        decreases v.len() - q,
    {
        if v[q].target != t && str_eq(v[q].path.as_str(), path) {
            return Some(q);
        }
        q = q + 1;
    }
    None
}

/// No two declarations before `(t, j)` collide.
spec fn distinct_before(specs: Seq<TargetSpec>, t: int, j: int) -> bool {
    forall|a: int, i: int, b: int, k: int|
        declared_before(a, i, t, j) && declared_before(b, k, t, j) ==> !#[trigger] collision_at(specs, a, i, b, k)
}

proof fn lemma_lists_step(prior: Seq<Producer>, out: Seq<Producer>, specs: Seq<TargetSpec>, t: int, j: int)
    requires
        lists_outputs(prior, specs, t, j),
        distinct_before(specs, t, j),
        output_at(specs, t, j),
        out.len() == prior.len() + 1,
        forall|s: int| 0 <= s < prior.len() ==> out[s] == prior[s],
        out.last().target == t,
        out.last().index == j,
        out.last().path@ == specs[t].outputs@[j]@,
        forall|s: int| 0 <= s < prior.len() ==> (#[trigger] prior[s]).path@ != specs[t].outputs@[j]@ || prior[s].target == t,
    ensures
        lists_outputs(out, specs, t, j + 1),
        distinct_before(specs, t, j + 1),
{
    assert forall|a: int, i: int| #[trigger] output_at(specs, a, i) && declared_before(a, i, t, j + 1) implies listed(out, a, i) by {
        if a == t && i == j {
            assert(out[out.len() - 1].target == a);
        } else {
            assert(listed(prior, a, i));
            let q = choose|q: int| 0 <= q < prior.len() && (#[trigger] prior[q]).target == a && prior[q].index == i;
            assert(out[q] == prior[q]);
        }
    }
    assert forall|q: int| 0 <= q < out.len() implies {
        let p = #[trigger] out[q];
        &&& output_at(specs, p.target as int, p.index as int)
        &&& declared_before(p.target as int, p.index as int, t, j + 1)
        &&& p.path@ == specs[p.target as int].outputs@[p.index as int]@
    } by {
        if q < prior.len() {
            assert(out[q] == prior[q]);
        }
    }
    assert forall|a: int, i: int, b: int, k: int| declared_before(a, i, t, j + 1) && declared_before(b, k, t, j + 1)
        implies !#[trigger] collision_at(specs, a, i, b, k) by {
        if collision_at(specs, a, i, b, k) {
            if a == t && i == j {
                assert(output_at(specs, b, k));
                assert(listed(prior, b, k));
                let q = choose|q: int| 0 <= q < prior.len() && (#[trigger] prior[q]).target == b && prior[q].index == k;
                assert(prior[q].path@ == specs[b].outputs@[k]@);
            } else if b == t && k == j {
                assert(output_at(specs, a, i));
                assert(listed(prior, a, i));
                let q = choose|q: int| 0 <= q < prior.len() && (#[trigger] prior[q]).target == a && prior[q].index == i;
                assert(prior[q].path@ == specs[a].outputs@[i]@);
            } else {
                assert(declared_before(a, i, t, j) && declared_before(b, k, t, j));
            }
        }
    }
}

proof fn lemma_lists_row(out: Seq<Producer>, specs: Seq<TargetSpec>, t: int, j: int)
    requires
        0 <= t < specs.len(),
        j == specs[t].outputs@.len(),
        lists_outputs(out, specs, t, j),
        distinct_before(specs, t, j),
    ensures
        lists_outputs(out, specs, t + 1, 0),
        distinct_before(specs, t + 1, 0),
{
    assert forall|a: int, i: int| #[trigger] output_at(specs, a, i) && declared_before(a, i, t + 1, 0) implies listed(out, a, i) by {
        assert(declared_before(a, i, t, j));
    }
    assert forall|a: int, i: int, b: int, k: int| declared_before(a, i, t + 1, 0) && declared_before(b, k, t + 1, 0)
        implies !#[trigger] collision_at(specs, a, i, b, k) by {
        if collision_at(specs, a, i, b, k) {
            assert(output_at(specs, a, i) && output_at(specs, b, k));
            assert(declared_before(a, i, t, j) && declared_before(b, k, t, j));
        }
    }
}

/// `e` names an output path and two different targets that declare it.
pub open spec fn collision_error(specs: Seq<TargetSpec>, e: GraphError) -> bool {
    e matches GraphError::OutputCollision { path, a, b } && a@ != b@ && exists|t: int, j: int, u: int, k: int|
        collision_at(specs, t, j, u, k) && specs[t].outputs@[j]@ == path@ && specs[t].id@ == a@
            && specs[u].id@ == b@
}

/// Labels from their text.
pub fn ids_from(v: &Vec<String>) -> (r: Vec<TargetId>)
    ensures
        ids_of(r@) == strs(v@),
{
    let mut out: Vec<TargetId> = Vec::new();
    let mut i: usize = 0;
    while i < v.len()
        invariant
            i <= v.len(),
            out.len() == i,
            forall|k: int| 0 <= k < i ==> (#[trigger] out@[k])@ == v@[k]@,
        decreases v.len() - i,
    {
        out.push(TargetId::new(v[i].as_str()));
        i = i + 1;
    }
    assert(ids_of(out@) == strs(v@));
    out
}

/// The edges that targets declare.
pub open spec fn declared_edges(specs: Seq<TargetSpec>) -> Set<(int, int)> {
    Set::new(
        |e: (int, int)|
            0 <= e.0 < specs.len() && 0 <= e.1 < specs.len() && declares(specs, e.0, e.1),
    )
}

/// No target has inferred dependencies.
pub open spec fn nothing_inferred(specs: Seq<TargetSpec>) -> bool {
    forall|i: int| 0 <= i < specs.len() ==> (#[trigger] specs[i]).inferred_deps@.len() == 0
}

/// Each target's inferred dependencies are those that its inputs give rise to
/// and it does not declare, sorted.
pub open spec fn all_inferred(specs: Seq<TargetSpec>) -> bool {
    forall|i: int| 0 <= i < specs.len() ==> #[trigger] inferred_set(specs, i)
}

pub open spec fn inferred_set(specs: Seq<TargetSpec>, i: int) -> bool {
    &&& ascending(ids_of(specs[i].inferred_deps@))
    &&& forall|x: Seq<char>| ids_of(specs[i].inferred_deps@).contains(x) <==> inferred(specs, i, x)
}

/// Inferred dependencies change nothing about what targets declare.
proof fn lemma_same_targets(a: Seq<TargetSpec>, b: Seq<TargetSpec>)
    requires
        same_targets(a, b),
    ensures
        spec_ids(a) == spec_ids(b),
        declared_edges(a) == declared_edges(b),
        edges_of(a) == edges_of(b),
        has_unknown_dep(a) == has_unknown_dep(b),
        has_collision(a) == has_collision(b),
        forall|p: int, i: int| #[trigger] unknown_dep_at(a, p, i) == unknown_dep_at(b, p, i),
        forall|t: int, j: int, u: int, k: int| #[trigger] collision_at(a, t, j, u, k) == collision_at(b, t, j, u, k),
        forall|p: int, d: int| 0 <= p < a.len() && 0 <= d < a.len() ==> #[trigger] feeds(a, p, d) == feeds(b, p, d),
        forall|p: int, d: int| 0 <= p < a.len() && 0 <= d < a.len() ==> #[trigger] declares(a, p, d) == declares(b, p, d),
        forall|p: int, x: Seq<char>| 0 <= p < a.len() ==> #[trigger] inferred(a, p, x) == inferred(b, p, x),
{
    assert(spec_ids(a) == spec_ids(b)) by {
        assert forall|i: int| 0 <= i < a.len() implies spec_ids(a)[i] == spec_ids(b)[i] by {
            assert(a[i].id == b[i].id);
        }
    }
    assert forall|p: int, i: int| #[trigger] unknown_dep_at(a, p, i) == unknown_dep_at(b, p, i) by {
        if 0 <= p < a.len() {
            assert(a[p].deps == b[p].deps);
        }
    }
    assert forall|t: int, j: int, u: int, k: int| #[trigger] collision_at(a, t, j, u, k) == collision_at(b, t, j, u, k) by {
        if 0 <= t < a.len() && 0 <= u < a.len() {
            assert(a[t].outputs == b[t].outputs);
            assert(a[u].outputs == b[u].outputs);
        }
    }
    assert forall|p: int, d: int| 0 <= p < a.len() && 0 <= d < a.len() implies #[trigger] feeds(a, p, d) == feeds(b, p, d) by {
        assert(a[p].inputs == b[p].inputs);
        assert(a[d].outputs == b[d].outputs);
        if feeds(a, p, d) {
            let (i, k) = choose|i: int, k: int|
                #![trigger a[p].inputs@[i], a[d].outputs@[k]]
                0 <= i < a[p].inputs@.len() && 0 <= k < a[d].outputs@.len() && input_matches(a[p].inputs@[i], a[d].outputs@[k]@);
            assert(b[p].inputs@[i] == a[p].inputs@[i] && b[d].outputs@[k] == a[d].outputs@[k]);
        }
        if feeds(b, p, d) {
            let (i, k) = choose|i: int, k: int|
                #![trigger b[p].inputs@[i], b[d].outputs@[k]]
                0 <= i < b[p].inputs@.len() && 0 <= k < b[d].outputs@.len() && input_matches(b[p].inputs@[i], b[d].outputs@[k]@);
            assert(b[p].inputs@[i] == a[p].inputs@[i] && b[d].outputs@[k] == a[d].outputs@[k]);
        }
    }
    assert forall|p: int, d: int| 0 <= p < a.len() && 0 <= d < a.len() implies #[trigger] declares(a, p, d) == declares(b, p, d) by {
        assert(a[p].deps == b[p].deps);
        assert(a[d].id == b[d].id);
    }
    assert forall|p: int, x: Seq<char>| 0 <= p < a.len() implies #[trigger] inferred(a, p, x) == inferred(b, p, x) by {
        if inferred(a, p, x) {
            let d = choose|d: int| 0 <= d < a.len() && (#[trigger] a[d]).id@ == x && feeds(a, p, d) && !declares(a, p, d);
            assert(b[d].id@ == x && feeds(b, p, d) && !declares(b, p, d));
        }
        if inferred(b, p, x) {
            let d = choose|d: int| 0 <= d < b.len() && (#[trigger] b[d]).id@ == x && feeds(b, p, d) && !declares(b, p, d);
            assert(a[d].id@ == x && feeds(a, p, d) && !declares(a, p, d));
        }
    }
    assert(declared_edges(a) == declared_edges(b));
    assert(edges_of(a) == edges_of(b));
    if has_unknown_dep(a) {
        let (p, i) = choose|p: int, i: int| unknown_dep_at(a, p, i);
        assert(unknown_dep_at(b, p, i));
    }
    if has_unknown_dep(b) {
        let (p, i) = choose|p: int, i: int| unknown_dep_at(b, p, i);
        assert(unknown_dep_at(a, p, i));
    }
    if has_collision(a) {
        let (t, j, u, k) = choose|t: int, j: int, u: int, k: int| collision_at(a, t, j, u, k);
        assert(collision_at(b, t, j, u, k));
    }
    if has_collision(b) {
        let (t, j, u, k) = choose|t: int, j: int, u: int, k: int| collision_at(b, t, j, u, k);
        assert(collision_at(a, t, j, u, k));
    }
}

impl BuildGraph {
    /// Forgets all inferred dependencies.
    fn clear_inferred(&mut self)
        requires
            old(self).well_formed(),
        ensures
            final(self).well_formed(),
            final(self).g == old(self).g,
            same_targets(final(self).specs(), old(self).specs()),
            nothing_inferred(final(self).specs()),
    {
        let ghost start = self.targets@;
        let n: usize = self.targets.len();
        let mut i: usize = 0;
        while i < n
            invariant
                i <= n,
                n == start.len(),
                self.g == old(self).g,
                same_targets(self.targets@, start),
                forall|k: int| 0 <= k < i ==> (#[trigger] self.targets@[k]).inferred_deps@.len() == 0,
            decreases n - i,
        {
            self.targets[i].inferred_deps = Vec::new();
            i = i + 1;
        }
        proof {
            lemma_same_targets(self.targets@, start);
        }
    }

    /// Adds the declared edges.
    fn wire_declared(&mut self) -> (r: Result<(), GraphError>)
        requires
            old(self).well_formed(),
            old(self).edges() == Set::<(int, int)>::empty(),
        ensures
            final(self).well_formed(),
            final(self).specs() == old(self).specs(),
            final(self).edges().subset_of(declared_edges(old(self).specs())),
            r is Ok <==> !has_unknown_dep(old(self).specs()),
            r is Ok ==> final(self).edges() == declared_edges(old(self).specs()),
            r matches Err(e) ==> unknown_dep_error(old(self).specs(), e),
    {
        let ghost specs = self.targets@;
        let n: usize = self.targets.len();
        let mut p: usize = 0;
        while p < n
            invariant
                p <= n,
                n == self.targets.len(),
                specs == self.targets@,
                old(self).specs() == specs,
                self.well_formed(),
                forall|a: int, b: int| #![trigger self.edges().contains((a, b))] self.edges().contains((a, b)) <==> a < p && declared_edges(specs).contains((a, b)),
                forall|q: int, i: int| q < p ==> !#[trigger] unknown_dep_at(specs, q, i),
            decreases n - p,
        {
            let mut i: usize = 0;
            while i < self.targets[p].deps.len()
                invariant
                    p < n,
                    n == self.targets.len(),
                    specs == self.targets@,
                    old(self).specs() == specs,
                    self.well_formed(),
                    i <= specs[p as int].deps@.len(),
                    forall|a: int, b: int| #![trigger self.edges().contains((a, b))] self.edges().contains((a, b)) <==> (a < p && declared_edges(specs).contains((a, b))) || (a == p && 0 <= b < n && ids_of(specs[p as int].deps@).take(i as int).contains(specs[b].id@)),
                    forall|q: int, k: int| q < p || (q == p && k < i) ==> !#[trigger] unknown_dep_at(specs, q, k),
                decreases specs[p as int].deps@.len() - i,
            {
                let dep = self.targets[p].deps[i].clone();
                let ghost deps = ids_of(specs[p as int].deps@);
                assert(deps[i as int] == dep@);
                match self.position(&dep) {
                    None => {
                        let parent = self.targets[p].id.clone();
                        proof {
                            assert(unknown_dep_at(specs, p as int, i as int));
                            assert(self.edges().subset_of(declared_edges(specs))) by {
                                assert forall|e: (int, int)| self.edges().contains(e) implies declared_edges(specs).contains(e) by {
                                    assert(self.edges().contains((e.0, e.1)));
                                    if e.0 == p {
                                        let k = choose|k: int| 0 <= k < i && deps.take(i as int)[k] == specs[e.1].id@;
                                        assert(deps[k] == specs[e.1].id@);
                                    }
                                }
                            }
                        }
                        return Err(GraphError::UnknownDep { parent, missing: dep });
                    },
                    Some(d) => {
                        let ghost before = self.edges();
                        dag_add_edge(&mut self.g, p, d);
                        proof {
                            assert(deps.take(i + 1) == deps.take(i as int).push(dep@));
                            let ids = spec_ids(specs);
                            assert(ids[d as int] == dep@);
                            assert forall|a: int, b: int| #![trigger self.edges().contains((a, b))] self.edges().contains((a, b)) <==> (a < p && declared_edges(specs).contains((a, b))) || (a == p && 0 <= b < n && deps.take(i + 1).contains(specs[b].id@)) by {
                                assert(self.edges().contains((a, b)) <==> before.contains((a, b)) || (a == p && b == d));
                                if 0 <= b < n {
                                    crate::order::lemma_push_contains(deps.take(i as int), dep@, specs[b].id@);
                                    assert(ids[b] == specs[b].id@);
                                }
                            }
                            assert forall|q: int, k: int| q < p || (q == p && k < i + 1) implies !#[trigger] unknown_dep_at(specs, q, k) by {
                                if q == p && k == i && unknown_dep_at(specs, q, k) {
                                    assert(spec_ids(specs).contains(specs[p as int].deps@[i as int]@));
                                }
                            }
                        }
                    },
                }
                i = i + 1;
            }
            proof {
                let deps = ids_of(specs[p as int].deps@);
                assert(deps.take(i as int) == deps);
                assert forall|a: int, b: int| #![trigger self.edges().contains((a, b))] self.edges().contains((a, b)) <==> a < p + 1 && declared_edges(specs).contains((a, b)) by {
                    if a == p && 0 <= b < n {
                        assert(declares(specs, a, b) == deps.contains(specs[b].id@));
                    }
                }
            }
            p = p + 1;
        }
        proof {
            assert forall|e: (int, int)| self.edges().contains(e) <==> declared_edges(specs).contains(e) by {
                assert(self.edges().contains((e.0, e.1)) <==> declared_edges(specs).contains((e.0, e.1)));
            }
            assert(self.edges() == declared_edges(specs));
        }
        Ok(())
    }
}

/// `e` names a target and a dependency of it that is no target.
pub open spec fn unknown_dep_error(specs: Seq<TargetSpec>, e: GraphError) -> bool {
    e matches GraphError::UnknownDep { parent, missing } && exists|p: int, i: int|
        #[trigger] unknown_dep_at(specs, p, i) && specs[p].id@ == parent@ && specs[p].deps@[i]@ == missing@
}

/// What the producers hit by a target's inputs are.
proof fn lemma_hits_are_feeds(
    specs: Seq<TargetSpec>,
    producers: Seq<Producer>,
    hits: Seq<Vec<bool>>,
    p: int,
    d: int,
)
    requires
        0 <= p < specs.len(),
        0 <= d < specs.len(),
        p != d,
        lists_outputs(producers, specs, specs.len() as int, 0),
        hits.len() == specs[p].inputs@.len(),
        forall|i: int, q: int|
            #![trigger hits[i]@[q]]
            0 <= i < hits.len() && 0 <= q < producers.len() ==> hits[i]@[q] == input_matches(
                specs[p].inputs@[i],
                producers[q].path@,
            ),
    ensures
        hit_from(producers, hits, d) == feeds(specs, p, d),
{
    if hit_from(producers, hits, d) {
        let (i, q) = choose|i: int, q: int|
            #![trigger hits[i]@[q]]
            0 <= i < hits.len() && 0 <= q < producers.len() && hits[i]@[q] && producers[q].target == d;
        let k = producers[q].index as int;
        assert(output_at(specs, d, k));
        assert(input_matches(specs[p].inputs@[i], specs[d].outputs@[k]@));
    }
    if feeds(specs, p, d) {
        let (i, k) = choose|i: int, k: int|
            #![trigger specs[p].inputs@[i], specs[d].outputs@[k]]
            0 <= i < specs[p].inputs@.len() && 0 <= k < specs[d].outputs@.len() && input_matches(specs[p].inputs@[i], specs[d].outputs@[k]@);
        assert(output_at(specs, d, k));
        assert(listed(producers, d, k));
        let q = choose|q: int| 0 <= q < producers.len() && (#[trigger] producers[q]).target == d && producers[q].index == k;
        assert(hits[i]@[q]);
    }
}

impl BuildGraph {
    /// Adds the edges that inputs and outputs give rise to, and records them
    /// with their targets.
    fn wire_inferred(&mut self, producers: &Vec<Producer>)
        requires
            old(self).well_formed(),
            old(self).edges() == declared_edges(old(self).specs()),
            nothing_inferred(old(self).specs()),
            lists_outputs(producers@, old(self).specs(), old(self).specs().len() as int, 0),
        ensures
            final(self).well_formed(),
            same_targets(final(self).specs(), old(self).specs()),
            final(self).edges() == edges_of(old(self).specs()),
            all_inferred(final(self).specs()),
    {
        let ghost specs = self.targets@;
        let n: usize = self.targets.len();
        let mut p: usize = 0;
        proof {
            assert forall|a: int, b: int| #![trigger self.edges().contains((a, b))] self.edges().contains((a, b)) <==> declared_edges(specs).contains((a, b)) || (a < 0 && edges_of(specs).contains((a, b))) by {}
        }
        while p < n
            invariant
                p <= n,
                n == specs.len(),
                old(self).specs() == specs,
                spec_ids(specs).no_duplicates(),
                self.well_formed(),
                same_targets(self.targets@, specs),
                lists_outputs(producers@, specs, n as int, 0),
                forall|a: int, b: int| #![trigger self.edges().contains((a, b))] self.edges().contains((a, b)) <==> declared_edges(specs).contains((a, b)) || (a < p && edges_of(specs).contains((a, b))),
                forall|i: int| 0 <= i < p ==> #[trigger] inferred_names(self.targets@[i], specs, i),
            decreases n - p,
        {
            let hits = match_table(&self.targets[p].inputs, producers);
            let fed = fed_by(p, producers, &hits);
            proof {
                assert(self.targets@[p as int].inputs == specs[p as int].inputs);
                assert forall|d: usize| #[trigger] fed@.contains(d) <==> d < n && d != p && feeds(specs, p as int, d as int) by {
                    if fed@.contains(d) {
                        let (i, q) = choose|i: int, q: int|
                            #![trigger hits@[i]@[q]]
                            0 <= i < hits@.len() && 0 <= q < producers@.len() && hits@[i]@[q] && producers@[q].target == d;
                        assert(output_at(specs, producers@[q].target as int, producers@[q].index as int));
                        lemma_hits_are_feeds(specs, producers@, hits@, p as int, d as int);
                    }
                    if d < n && d != p && feeds(specs, p as int, d as int) {
                        lemma_hits_are_feeds(specs, producers@, hits@, p as int, d as int);
                    }
                }
            }
            let mut names: Vec<String> = Vec::new();
            let ghost edges0 = self.edges();
            let ghost targets0 = self.targets@;
            let mut k: usize = 0;
            while k < fed.len()
                invariant
                    k <= fed.len(),
                    p < n,
                    n == specs.len(),
                    old(self).specs() == specs,
                    self.well_formed(),
                    self.targets@ == targets0,
                    same_targets(targets0, specs),
                    forall|d: usize| #[trigger] fed@.contains(d) <==> d < n && d != p && feeds(specs, p as int, d as int),
                    forall|a: int, b: int| #![trigger self.edges().contains((a, b))] self.edges().contains((a, b)) <==> edges0.contains((a, b)) || (a == p && taken(fed@, k as int, b)),
                    forall|a: int, b: int| #![trigger edges0.contains((a, b))] edges0.contains((a, b)) <==> declared_edges(specs).contains((a, b)) || (a < p && edges_of(specs).contains((a, b))),
                    forall|x: Seq<char>| #[trigger] strs(names@).contains(x) <==> exists|m: int| 0 <= m < k && (#[trigger] specs[fed@[m] as int]).id@ == x && !declares(specs, p as int, fed@[m] as int),
                decreases fed.len() - k,
            {
                let d: usize = fed[k];
                assert(fed@.contains(d));
                assert(targets0[d as int].id == specs[d as int].id);
                assert(targets0[p as int].deps == specs[p as int].deps);
                let declared: bool = self.declares_dep(p, d);
                let ghost names0 = strs(names@);
                let ghost edges1 = self.edges();
                if !declared {
                    dag_add_edge(&mut self.g, p, d);
                    names.push(crate::text::owned(self.targets[d].id.as_str()));
                    assert(strs(names@) == names0.push(specs[d as int].id@));
                }
                proof {
                    assert forall|a: int, b: int| #![trigger self.edges().contains((a, b))] self.edges().contains((a, b)) <==> edges0.contains((a, b)) || (a == p && taken(fed@, k + 1, b)) by {
                        assert(self.edges().contains((a, b)) <==> edges1.contains((a, b)) || (!declared && a == p && b == d));
                        assert(taken(fed@, k + 1, b) <==> taken(fed@, k as int, b) || b == d) by {
                            if b == d {
                                assert(fed@[k as int] as int == b);
                            }
                        }
                        if declared && a == p && b == d {
                            assert(declared_edges(specs).contains((a, b)));
                            assert(edges0.contains((a, b)));
                        }
                    }
                    assert forall|x: Seq<char>| #[trigger] strs(names@).contains(x) <==> exists|m: int| 0 <= m < k + 1 && (#[trigger] specs[fed@[m] as int]).id@ == x && !declares(specs, p as int, fed@[m] as int) by {
                        if !declared {
                            crate::order::lemma_push_contains(names0, specs[d as int].id@, x);
                            if x == specs[d as int].id@ {
                                assert(specs[fed@[k as int] as int].id@ == x);
                            }
                        }
                        if names0.contains(x) {
                            let m = choose|m: int| 0 <= m < k && (#[trigger] specs[fed@[m] as int]).id@ == x && !declares(specs, p as int, fed@[m] as int);
                            assert(specs[fed@[m] as int].id@ == x);
                        }
                        if exists|m: int| 0 <= m < k + 1 && (#[trigger] specs[fed@[m] as int]).id@ == x && !declares(specs, p as int, fed@[m] as int) {
                            let m = choose|m: int| 0 <= m < k + 1 && (#[trigger] specs[fed@[m] as int]).id@ == x && !declares(specs, p as int, fed@[m] as int);
                            if m < k {
                                assert(names0.contains(x));
                            }
                        }
                    }
                }
                k = k + 1;
            }
            let sorted = sorted_set(&names);
            let found = ids_from(&sorted);
            let ghost edges2 = self.edges();
            self.targets[p].inferred_deps = found;
            proof {
                assert(self.edges() == edges2);
                assert(same_targets(self.targets@, specs));
                lemma_same_targets(self.targets@, specs);
                assert forall|a: int, b: int| #![trigger self.edges().contains((a, b))] self.edges().contains((a, b)) <==> declared_edges(specs).contains((a, b)) || (a < p + 1 && edges_of(specs).contains((a, b))) by {
                    assert(edges2.contains((a, b)) <==> edges0.contains((a, b)) || (a == p && taken(fed@, k as int, b)));
                    if a == p {
                        if taken(fed@, k as int, b) {
                            let m = choose|m: int| 0 <= m < k && (#[trigger] fed@[m]) as int == b;
                            assert(fed@.contains(fed@[m]));
                        }
                        if edges_of(specs).contains((a, b)) && !declares(specs, a, b) {
                            assert(fed@.contains(b as usize));
                            let m = choose|m: int| 0 <= m < fed@.len() && fed@[m] == b as usize;
                            assert(taken(fed@, k as int, b));
                        }
                    }
                }
                assert forall|x: Seq<char>| ids_of(found@).contains(x) <==> inferred(specs, p as int, x) by {
                    assert(ids_of(found@).contains(x) <==> strs(names@).contains(x));
                    if strs(names@).contains(x) {
                        let m = choose|m: int| 0 <= m < k && (#[trigger] specs[fed@[m] as int]).id@ == x && !declares(specs, p as int, fed@[m] as int);
                        assert(fed@.contains(fed@[m]));
                        assert(specs[fed@[m] as int].id@ == x);
                    }
                    if inferred(specs, p as int, x) {
                        let d = choose|d: int| 0 <= d < specs.len() && (#[trigger] specs[d]).id@ == x && feeds(specs, p as int, d) && !declares(specs, p as int, d);
                        assert(fed@.contains(d as usize));
                        let m = choose|m: int| 0 <= m < fed@.len() && fed@[m] == d as usize;
                        assert(specs[fed@[m] as int].id@ == x);
                        assert(strs(names@).contains(x));
                    }
                }
                assert(inferred_names(self.targets@[p as int], specs, p as int));
                assert forall|i: int| 0 <= i < p + 1 implies #[trigger] inferred_names(self.targets@[i], specs, i) by {
                    if i < p {
                        assert(inferred_names(targets0[i], specs, i));
                        assert(self.targets@[i] == targets0[i]);
                    }
                }
            }
            p = p + 1;
        }
        proof {
            assert forall|e: (int, int)| self.edges().contains(e) <==> edges_of(specs).contains(e) by {
                assert(self.edges().contains((e.0, e.1)) <==> edges_of(specs).contains((e.0, e.1)));
            }
            assert(self.edges() == edges_of(specs));
            lemma_same_targets(self.targets@, specs);
            assert forall|i: int| 0 <= i < self.targets@.len() implies #[trigger] inferred_set(self.targets@, i) by {
                assert(inferred_names(self.targets@[i], specs, i));
            }
        }
    }

    /// Whether target `p` names target `d` among its dependencies.
    fn declares_dep(&self, p: usize, d: usize) -> (r: bool)
        requires
            p < self.specs().len(),
            d < self.specs().len(),
        ensures
            r == declares(self.specs(), p as int, d as int),
    {
        let ghost deps = ids_of(self.targets@[p as int].deps@);
        let mut i: usize = 0;
        while i < self.targets[p].deps.len()
            invariant
                p < self.targets@.len(),
                d < self.targets@.len(),
                deps == ids_of(self.targets@[p as int].deps@),
                i <= deps.len(),
                forall|k: int| 0 <= k < i ==> deps[k] != self.targets@[d as int].id@,
            decreases deps.len() - i,
        {
            assert(deps[i as int] == self.targets@[p as int].deps@[i as int]@);
            if self.targets[p].deps[i].same(&self.targets[d].id) {
                return true;
            }
            i = i + 1;
        }
        false
    }

    /// Derives all edges anew from the targets: the declared ones, then those
    /// that outputs and input globs give rise to; and refuses unknown
    /// dependencies, colliding outputs and cycles, in this order.
    pub fn build_edges_and_validate(&mut self) -> (r: Result<(), GraphError>)
        requires
            old(self).well_formed(),
        ensures
            final(self).well_formed(),
            same_targets(final(self).specs(), old(self).specs()),
            r is Ok <==> !has_unknown_dep(old(self).specs()) && !has_collision(old(self).specs())
                && !has_cycle(edges_of(old(self).specs())),
            r matches Err(e) ==> match e {
                GraphError::DuplicateId(_) => false,
                GraphError::UnknownDep { .. } => {
                    &&& unknown_dep_error(old(self).specs(), e)
                    &&& final(self).edges().subset_of(declared_edges(old(self).specs()))
                    &&& nothing_inferred(final(self).specs())
                },
                GraphError::OutputCollision { .. } => {
                    &&& !has_unknown_dep(old(self).specs())
                    &&& collision_error(old(self).specs(), e)
                    &&& final(self).edges() == declared_edges(old(self).specs())
                    &&& nothing_inferred(final(self).specs())
                },
                GraphError::Cycle(m) => {
                    &&& !has_unknown_dep(old(self).specs())
                    &&& !has_collision(old(self).specs())
                    &&& final(self).edges() == edges_of(old(self).specs())
                    &&& all_inferred(final(self).specs())
                    &&& names_cycle(final(self).ids(), final(self).edges(), m@)
                },
            },
            r is Ok ==> final(self).edges() == edges_of(old(self).specs()) && all_inferred(
                final(self).specs(),
            ),
    {
        let ghost specs0 = self.targets@;
        dag_clear_edges(&mut self.g);
        assert(self.well_formed());
        self.clear_inferred();
        let ghost specs1 = self.targets@;
        proof {
            lemma_same_targets(specs1, specs0);
        }
        match self.wire_declared() {
            Err(e) => {
                proof {
                    let parent = e->parent;
                    let missing = e->missing;
                    let (p, i) = choose|p: int, i: int| #[trigger] unknown_dep_at(specs1, p, i) && specs1[p].id@ == parent@ && specs1[p].deps@[i]@ == missing@;
                    assert(unknown_dep_at(specs0, p, i));
                    assert(specs0[p].id == specs1[p].id);
                    assert(specs0[p].deps == specs1[p].deps);
                }
                return Err(e);
            },
            Ok(()) => {},
        }
        let found = match self.producers() {
            Err(e) => {
                return Err(e);
            },
            Ok(found) => found,
        };
        self.wire_inferred(&found);
        proof {
            lemma_same_targets(self.targets@, specs1);
            assert(same_targets(self.targets@, specs0));
        }
        self.validate_acyclic()
    }

    /// Refuses a cycle.
    pub fn validate_acyclic(&self) -> (r: Result<(), GraphError>)
        requires
            self.well_formed(),
        ensures
            r is Ok <==> !has_cycle(self.edges()),
            r matches Err(e) ==> (e matches GraphError::Cycle(m) && names_cycle(self.ids(), self.edges(), m@)),
    {
        match dag_toposort(&self.g) {
            Ok(_) => Ok(()),
            Err(v) => {
                let m = cat2("cycle includes target ", self.targets[v].id.as_str());
                assert(self.ids()[v as int] == self.targets@[v as int].id@);
                Err(GraphError::Cycle(m))
            },
        }
    }
}

/// `m` names a target that lies on a cycle.
pub open spec fn names_cycle(ids: Seq<Seq<char>>, edges: Set<(int, int)>, m: Seq<char>) -> bool {
    exists|v: int| 0 <= v < ids.len() && #[trigger] on_cycle(edges, v) && m == cycle_text(ids[v])
}

/// `b` is one of the first `k` entries of `fed`.
spec fn taken(fed: Seq<usize>, k: int, b: int) -> bool {
    exists|m: int| 0 <= m < k && (#[trigger] fed[m]) as int == b
}

/// The inferred dependencies of `t` are those of `specs[i]`.
spec fn inferred_names(t: TargetSpec, specs: Seq<TargetSpec>, i: int) -> bool {
    &&& ascending(ids_of(t.inferred_deps@))
    &&& forall|x: Seq<char>| ids_of(t.inferred_deps@).contains(x) <==> inferred(specs, i, x)
}

/// `order` lists every label once, and each target behind the targets it
/// depends on.
pub open spec fn deps_first(order: Seq<Seq<char>>, ids: Seq<Seq<char>>, edges: Set<(int, int)>) -> bool {
    &&& order.len() == ids.len()
    &&& order.no_duplicates()
    &&& forall|x: Seq<char>| order.contains(x) <==> ids.contains(x)
    &&& forall|i: int, j: int, p: int, d: int|
        #![trigger order[i], order[j], edges.contains((p, d))]
        0 <= i < order.len() && 0 <= j < order.len() && edges.contains((p, d)) && 0 <= p < ids.len()
            && 0 <= d < ids.len() && order[i] == ids[p] && order[j] == ids[d] ==> j < i
}

/// `x` is a seed, or a target that a seed depends on through edges.
pub open spec fn in_closure(ids: Seq<Seq<char>>, edges: Set<(int, int)>, seeds: Seq<Seq<char>>, x: Seq<char>) -> bool {
    seeds.contains(x) || exists|a: int, b: int|
        #![trigger crate::dag::reaches(edges, a, b)]
        0 <= a < ids.len() && 0 <= b < ids.len() && seeds.contains(ids[a]) && ids[b] == x
            && crate::dag::reaches(edges, a, b)
}

/// A declared dependency is an edge, and so is every target whose output an
/// input glob of another matches.
pub proof fn law_dependency_is_edge(specs: Seq<TargetSpec>, p: int, d: int)
    requires
        0 <= p < specs.len(),
        0 <= d < specs.len(),
    ensures
        forall|i: int| 0 <= i < specs[p].deps@.len() && (#[trigger] specs[p].deps@[i])@ == specs[d].id@ ==> edges_of(specs).contains((p, d)),
        forall|i: int, k: int, glob: GlobPattern|
            #![trigger glob_match(glob@, specs[d].outputs@[k]@, true, false, false), specs[p].inputs@[i]]
            p != d && 0 <= i < specs[p].inputs@.len() && 0 <= k < specs[d].outputs@.len() && specs[p].inputs@[i] == (Input::File { glob }) && glob_match(glob@, specs[d].outputs@[k]@, true, false, false) ==> edges_of(specs).contains((p, d)),
{
    assert forall|i: int| 0 <= i < specs[p].deps@.len() && (#[trigger] specs[p].deps@[i])@ == specs[d].id@ implies edges_of(specs).contains((p, d)) by {
        assert(ids_of(specs[p].deps@)[i] == specs[d].id@);
    }
    assert forall|i: int, k: int, glob: GlobPattern|
        #![trigger glob_match(glob@, specs[d].outputs@[k]@, true, false, false), specs[p].inputs@[i]]
        p != d && 0 <= i < specs[p].inputs@.len() && 0 <= k < specs[d].outputs@.len() && specs[p].inputs@[i] == (Input::File { glob }) && glob_match(glob@, specs[d].outputs@[k]@, true, false, false) implies edges_of(specs).contains((p, d)) by {
        assert(input_matches(specs[p].inputs@[i], specs[d].outputs@[k]@));
        assert(feeds(specs, p, d));
    }
}

/// Every edge has a reason: the dependency is declared, or it is another target
/// whose output an input glob matches.
pub proof fn law_edge_has_reason(specs: Seq<TargetSpec>, p: int, d: int)
    requires
        edges_of(specs).contains((p, d)),
    ensures
        0 <= p < specs.len() && 0 <= d < specs.len(),
        (exists|i: int| 0 <= i < specs[p].deps@.len() && (#[trigger] specs[p].deps@[i])@ == specs[d].id@) || (p != d && exists|i: int, k: int|
            #![trigger specs[p].inputs@[i], specs[d].outputs@[k]]
            0 <= i < specs[p].inputs@.len() && 0 <= k < specs[d].outputs@.len() && (specs[p].inputs@[i] matches Input::File { glob } && glob_match(glob@, specs[d].outputs@[k]@, true, false, false))),
{
    if declares(specs, p, d) {
        let v = ids_of(specs[p].deps@);
        let i = choose|i: int| 0 <= i < v.len() && v[i] == specs[d].id@;
        assert(specs[p].deps@[i]@ == specs[d].id@);
    } else {
        let (i, k) = choose|i: int, k: int|
            #![trigger specs[p].inputs@[i], specs[d].outputs@[k]]
            0 <= i < specs[p].inputs@.len() && 0 <= k < specs[d].outputs@.len() && input_matches(specs[p].inputs@[i], specs[d].outputs@[k]@);
        assert(specs[p].inputs@[i] is File);
    }
}

/// What is refused: a dependency that names no target, and an output that two
/// targets declare. A target may list an output of its own twice.
pub proof fn law_refused_graphs(specs: Seq<TargetSpec>)
    ensures
        has_unknown_dep(specs) <==> exists|p: int, i: int|
            #![trigger specs[p].deps@[i]]
            0 <= p < specs.len() && 0 <= i < specs[p].deps@.len() && forall|d: int| 0 <= d < specs.len() ==> (#[trigger] specs[d]).id@ != specs[p].deps@[i]@,
        has_collision(specs) <==> exists|t: int, j: int, u: int, k: int|
            #![trigger specs[t].outputs@[j], specs[u].outputs@[k]]
            0 <= t < specs.len() && 0 <= u < specs.len() && t != u && 0 <= j < specs[t].outputs@.len() && 0 <= k < specs[u].outputs@.len() && specs[t].outputs@[j]@ == specs[u].outputs@[k]@,
{
    let ids = spec_ids(specs);
    if has_unknown_dep(specs) {
        let (p, i) = choose|p: int, i: int| unknown_dep_at(specs, p, i);
        assert forall|d: int| 0 <= d < specs.len() implies (#[trigger] specs[d]).id@ != specs[p].deps@[i]@ by {
            assert(ids[d] == specs[d].id@);
            assert(ids.contains(ids[d]));
        }
        assert(specs[p].deps@[i] == specs[p].deps@[i]);
    }
    if exists|p: int, i: int|
        #![trigger specs[p].deps@[i]]
        0 <= p < specs.len() && 0 <= i < specs[p].deps@.len() && forall|d: int| 0 <= d < specs.len() ==> (#[trigger] specs[d]).id@ != specs[p].deps@[i]@ {
        let (p, i) = choose|p: int, i: int|
            #![trigger specs[p].deps@[i]]
            0 <= p < specs.len() && 0 <= i < specs[p].deps@.len() && forall|d: int| 0 <= d < specs.len() ==> (#[trigger] specs[d]).id@ != specs[p].deps@[i]@;
        if ids.contains(specs[p].deps@[i]@) {
            let d = choose|d: int| 0 <= d < ids.len() && ids[d] == specs[p].deps@[i]@;
            assert(specs[d].id@ == ids[d]);
        }
        assert(unknown_dep_at(specs, p, i));
    }
    if has_collision(specs) {
        let (t, j, u, k) = choose|t: int, j: int, u: int, k: int| collision_at(specs, t, j, u, k);
        assert(specs[t].outputs@[j]@ == specs[u].outputs@[k]@);
    }
    if exists|t: int, j: int, u: int, k: int|
        #![trigger specs[t].outputs@[j], specs[u].outputs@[k]]
        0 <= t < specs.len() && 0 <= u < specs.len() && t != u && 0 <= j < specs[t].outputs@.len() && 0 <= k < specs[u].outputs@.len() && specs[t].outputs@[j]@ == specs[u].outputs@[k]@ {
        let (t, j, u, k) = choose|t: int, j: int, u: int, k: int|
            #![trigger specs[t].outputs@[j], specs[u].outputs@[k]]
            0 <= t < specs.len() && 0 <= u < specs.len() && t != u && 0 <= j < specs[t].outputs@.len() && 0 <= k < specs[u].outputs@.len() && specs[t].outputs@[j]@ == specs[u].outputs@[k]@;
        assert(collision_at(specs, t, j, u, k));
    }
}

/// A chain of edges that leads back to where it started is a cycle.
pub proof fn law_chain_back_is_cycle(edges: Set<(int, int)>, chain: Seq<int>)
    requires
        is_chain(edges, chain),
        chain.len() >= 2,
        chain[0] == chain.last(),
    ensures
        has_cycle(edges),
{
    assert forall|i: int| #![trigger chain[i]] 0 <= i < chain.len() - 1 implies edges.contains((chain[i], chain[i + 1])) by {
        let m = i + 1;
        assert(edges.contains((chain[i], chain[m])));
    }
    assert(crate::dag::is_walk(edges, chain));
    assert(on_cycle(edges, chain[0]));
}

/// A selection needs what it names and everything a chain of dependencies leads
/// to from there.
pub proof fn law_chain_is_needed(ids: Seq<Seq<char>>, edges: Set<(int, int)>, seeds: Seq<Seq<char>>, chain: Seq<int>)
    requires
        is_chain(edges, chain),
        0 <= chain[0] < ids.len(),
        0 <= chain.last() < ids.len(),
        seeds.contains(ids[chain[0]]),
    ensures
        in_closure(ids, edges, seeds, ids[chain.last()]),
{
    lemma_chain_reaches(edges, chain);
}

/// A selection needs nothing else: what it needs is named, or a chain of
/// dependencies leads there from what is named.
pub proof fn law_needed_has_chain(ids: Seq<Seq<char>>, edges: Set<(int, int)>, seeds: Seq<Seq<char>>, x: Seq<char>)
    requires
        in_closure(ids, edges, seeds, x),
    ensures
        seeds.contains(x) || exists|chain: Seq<int>| #[trigger] is_chain(edges, chain) && 0 <= chain[0] < ids.len() && seeds.contains(ids[chain[0]]) && 0 <= chain.last() < ids.len() && ids[chain.last()] == x,
{
    if !seeds.contains(x) {
        let (a, b) = choose|a: int, b: int|
            #![trigger crate::dag::reaches(edges, a, b)]
            0 <= a < ids.len() && 0 <= b < ids.len() && seeds.contains(ids[a]) && ids[b] == x && crate::dag::reaches(edges, a, b);
        let chain = crate::dag::lemma_reaches_chain(edges, a, b);
        assert(is_chain(edges, chain));
    }
}

/// What is inferred and not declared is shown as inferred: a target lists the
/// others whose outputs its input globs match and that it does not name itself.
pub proof fn law_inferred_shown(specs: Seq<TargetSpec>, p: int, d: int, i: int, k: int, glob: GlobPattern)
    requires
        all_inferred(specs),
        0 <= p < specs.len(),
        0 <= d < specs.len(),
        p != d,
        0 <= i < specs[p].inputs@.len(),
        specs[p].inputs@[i] == (Input::File { glob }),
        0 <= k < specs[d].outputs@.len(),
        glob_match(glob@, specs[d].outputs@[k]@, true, false, false),
        forall|m: int| 0 <= m < specs[p].deps@.len() ==> (#[trigger] specs[p].deps@[m])@ != specs[d].id@,
    ensures
        ids_of(specs[p].inferred_deps@).contains(specs[d].id@),
{
    assert(input_matches(specs[p].inputs@[i], specs[d].outputs@[k]@));
    assert(feeds(specs, p, d));
    if declares(specs, p, d) {
        let v = ids_of(specs[p].deps@);
        let m = choose|m: int| 0 <= m < v.len() && v[m] == specs[d].id@;
        assert(v[m] == specs[p].deps@[m]@);
    }
    assert(inferred(specs, p, specs[d].id@));
    assert(inferred_set(specs, p));
}

/// A chain leads from its first target to its last.
pub proof fn lemma_chain_reaches(edges: Set<(int, int)>, chain: Seq<int>)
    requires
        is_chain(edges, chain),
    ensures
        crate::dag::reaches(edges, chain[0], chain.last()),
    decreases chain.len(),
{
    if chain.len() == 1 {
        crate::dag::lemma_reaches_self(edges, chain[0]);
    } else {
        let front = chain.drop_last();
        let n = chain.len() as int;
        assert forall|j: int, m: int| 0 <= j && m == j + 1 && m < front.len() implies edges.contains((#[trigger] front[j], #[trigger] front[m])) by {
            assert(front[j] == chain[j] && front[m] == chain[m]);
        }
        lemma_chain_reaches(edges, front);
        assert(edges.contains((chain[n - 2], chain[n - 1])));
        crate::dag::lemma_reaches_step(edges, chain[0], chain[n - 2], chain[n - 1]);
    }
}

/// Deriving the edges a second time changes nothing: they follow from what the
/// targets declare, not from what was inferred before.
pub proof fn law_edges_ignore_inference(a: Seq<TargetSpec>, b: Seq<TargetSpec>)
    requires
        same_targets(a, b),
    ensures
        edges_of(a) == edges_of(b),
        has_unknown_dep(a) == has_unknown_dep(b),
        has_collision(a) == has_collision(b),
        forall|p: int, x: Seq<char>| 0 <= p < a.len() ==> #[trigger] inferred(a, p, x) == inferred(b, p, x),
{
    lemma_same_targets(a, b);
}

/// In a list with dependencies first, no target stands before one it depends
/// on through any number of edges.
pub proof fn law_closure_precedes(order: Seq<Seq<char>>, ids: Seq<Seq<char>>, edges: Set<(int, int)>, i: int, j: int, p: int, d: int)
    requires
        ids.no_duplicates(),
        within(ids.len() as int, edges),
        deps_first(order, ids, edges),
        0 <= p < ids.len(),
        0 <= d < ids.len(),
        0 <= i < order.len(),
        0 <= j < order.len(),
        order[i] == ids[p],
        order[j] == ids[d],
        crate::dag::reaches(edges, p, d),
    ensures
        j <= i,
{
    reveal(crate::dag::reaches);
    let w = choose|w: Seq<int>|
        #![trigger crate::dag::is_walk(edges, w)]
        crate::dag::is_walk(edges, w) && w.len() >= 1 && w[0] == p && w.last() == d;
    lemma_walk_precedes(order, ids, edges, w, i, j);
}

#[verifier::spinoff_prover]
proof fn lemma_walk_precedes(order: Seq<Seq<char>>, ids: Seq<Seq<char>>, edges: Set<(int, int)>, w: Seq<int>, i: int, j: int)
    requires
        ids.no_duplicates(),
        within(ids.len() as int, edges),
        deps_first(order, ids, edges),
        crate::dag::is_walk(edges, w),
        w.len() >= 1,
        0 <= w[0] < ids.len(),
        0 <= w.last() < ids.len(),
        0 <= i < order.len(),
        0 <= j < order.len(),
        order[i] == ids[w[0]],
        order[j] == ids[w.last()],
    ensures
        j <= i,
    decreases w.len(),
{
    if w.len() == 1 {
        assert(order[i] == order[j]);
    } else {
        let v = w.drop_last();
        assert forall|k: int| #![trigger v[k]] 0 <= k < v.len() - 1 implies edges.contains((v[k], v[k + 1])) by {
            assert(w[k] == v[k]);
        }
        let k = w.len() - 2;
        assert(edges.contains((w[k], w[k + 1])));
        assert(ids.contains(ids[w[k]]));
        assert(order.contains(ids[w[k]]));
        let m = choose|m: int| 0 <= m < order.len() && order[m] == ids[w[k]];
        assert(v.last() == w[k]);
        assert(v[0] == w[0]);
        lemma_walk_precedes(order, ids, edges, v, i, m);
        assert(order[m] == ids[w[k]] && order[j] == ids[w[k + 1]]);
    }
}

impl BuildGraph {
    /// The labels with dependencies first: a target stands behind all its
    /// dependencies.
    pub fn topo_order(&self) -> (r: Result<Vec<TargetId>, GraphError>)
        requires
            self.well_formed(),
        ensures
            r is Ok <==> !has_cycle(self.edges()),
            r matches Ok(order) ==> deps_first(ids_of(order@), self.ids(), self.edges()),
            r matches Err(e) ==> (e matches GraphError::Cycle(m) && names_cycle(self.ids(), self.edges(), m@)),
    {
        match self.topo_positions() {
            Err(e) => Err(e),
            Ok(order) => {
                let ghost n = order@.len() as int;
                let mut out: Vec<TargetId> = Vec::new();
                let mut i: usize = 0;
                while i < order.len()
                    invariant
                        i <= order.len(),
                        out.len() == i,
                        forall|k: int| 0 <= k < order.len() ==> #[trigger] order@[k] < self.targets@.len(),
                        forall|k: int| 0 <= k < i ==> (#[trigger] out@[k])@ == self.ids()[order@[k] as int],
                    decreases order.len() - i,
                {
                    assert(self.ids()[order@[i as int] as int] == self.targets@[order@[i as int] as int].id@);
                    out.push(self.targets[order[i]].id.clone());
                    i = i + 1;
                }
                proof {
                    let names = ids_of(out@);
                    let ids = self.ids();
                    lemma_positions_cover(order@, ids.len());
                    assert forall|a: int, b: int| 0 <= a < names.len() && 0 <= b < names.len() && a != b implies names[a] != names[b] by {
                        assert(order@[a] != order@[b]);
                        assert(names[a] == ids[order@[a] as int] && names[b] == ids[order@[b] as int]);
                    }
                    assert forall|x: Seq<char>| names.contains(x) <==> ids.contains(x) by {
                        if names.contains(x) {
                            let a = choose|a: int| 0 <= a < names.len() && names[a] == x;
                            assert(ids[order@[a] as int] == x);
                        }
                        if ids.contains(x) {
                            let p = choose|p: int| 0 <= p < ids.len() && ids[p] == x;
                            assert(order@.contains(p as usize));
                            let a = choose|a: int| 0 <= a < order@.len() && order@[a] == p as usize;
                            assert(names[a] == x);
                        }
                    }
                    assert forall|a: int, b: int, p: int, d: int|
                        #![trigger names[a], names[b], self.edges().contains((p, d))]
                        0 <= a < names.len() && 0 <= b < names.len() && self.edges().contains((p, d)) && 0 <= p < ids.len() && 0 <= d < ids.len()
                        && names[a] == ids[p] && names[b] == ids[d] implies b < a by {
                        assert(names[a] == ids[order@[a] as int] && names[b] == ids[order@[b] as int]);
                        assert(order@[a] == p && order@[b] == d);
                        assert(self.edges().contains((order@[a] as int, order@[b] as int)));
                    }
                }
                Ok(out)
            },
        }
    }

    /// The positions with dependencies first.
    pub fn topo_positions(&self) -> (r: Result<Vec<usize>, GraphError>)
        requires
            self.well_formed(),
        ensures
            r is Ok <==> !has_cycle(self.edges()),
            r matches Ok(order) ==> {
                &&& order@.len() == self.ids().len()
                &&& order@.no_duplicates()
                &&& forall|i: int| 0 <= i < order@.len() ==> #[trigger] order@[i] < self.ids().len()
                &&& forall|i: int, j: int|
                    #![trigger order@[i], order@[j]]
                    0 <= i < order@.len() && 0 <= j < order@.len() && self.edges().contains((order@[i] as int, order@[j] as int)) ==> j < i
            },
            r matches Err(e) ==> (e matches GraphError::Cycle(m) && names_cycle(self.ids(), self.edges(), m@)),
    {
        match dag_toposort(&self.g) {
            Err(v) => {
                let m = cat2("cycle includes target ", self.targets[v].id.as_str());
                assert(self.ids()[v as int] == self.targets@[v as int].id@);
                Err(GraphError::Cycle(m))
            },
            Ok(order) => {
                let n: usize = order.len();
                let mut out: Vec<usize> = Vec::new();
                let mut i: usize = 0;
                while i < n
                    invariant
                        i <= n,
                        n == order.len(),
                        out.len() == i,
                        forall|k: int| 0 <= k < i ==> #[trigger] out@[k] == order@[n - 1 - k],
                    decreases n - i,
                {
                    out.push(order[n - 1 - i]);
                    i = i + 1;
                }
                proof {
                    assert forall|a: int, b: int| 0 <= a < out@.len() && 0 <= b < out@.len() && a != b implies out@[a] != out@[b] by {
                        assert(order@[n - 1 - a] != order@[n - 1 - b]);
                    }
                    assert forall|a: int, b: int|
                        #![trigger out@[a], out@[b]]
                        0 <= a < out@.len() && 0 <= b < out@.len() && self.edges().contains((out@[a] as int, out@[b] as int)) implies b < a by {
                        assert(order@[n - 1 - a] == out@[a] && order@[n - 1 - b] == out@[b]);
                    }
                }
                Ok(out)
            },
        }
    }

    /// The labels of the positions in `v`, sorted, each once.
    fn labels(&self, v: &Vec<usize>) -> (r: Vec<TargetId>)
        requires
            forall|k: int| 0 <= k < v.len() ==> #[trigger] v@[k] < self.specs().len(),
        ensures
            ascending(ids_of(r@)),
            forall|x: Seq<char>| ids_of(r@).contains(x) <==> exists|k: int| 0 <= k < v.len() && self.ids()[(#[trigger] v@[k]) as int] == x,
    {
        let mut names: Vec<String> = Vec::new();
        let mut i: usize = 0;
        while i < v.len()
            invariant
                i <= v.len(),
                names.len() == i,
                forall|k: int| 0 <= k < v.len() ==> #[trigger] v@[k] < self.targets@.len(),
                forall|k: int| 0 <= k < i ==> #[trigger] strs(names@)[k] == self.ids()[v@[k] as int],
            decreases v.len() - i,
        {
            let ghost before = strs(names@);
            assert(self.ids()[v@[i as int] as int] == self.targets@[v@[i as int] as int].id@);
            names.push(crate::text::owned(self.targets[v[i]].id.as_str()));
            assert(strs(names@) == before.push(self.ids()[v@[i as int] as int]));
            i = i + 1;
        }
        proof {
            assert forall|x: Seq<char>| strs(names@).contains(x) <==> exists|k: int| 0 <= k < v.len() && self.ids()[(#[trigger] v@[k]) as int] == x by {
                if strs(names@).contains(x) {
                    let k = choose|k: int| 0 <= k < names@.len() && strs(names@)[k] == x;
                    assert(self.ids()[v@[k] as int] == x);
                }
                if exists|k: int| 0 <= k < v.len() && self.ids()[(#[trigger] v@[k]) as int] == x {
                    let k = choose|k: int| 0 <= k < v.len() && self.ids()[(#[trigger] v@[k]) as int] == x;
                    assert(strs(names@)[k] == x);
                }
            }
        }
        let sorted = sorted_set(&names);
        ids_from(&sorted)
    }

    /// Direct dependencies, declared and inferred, sorted, each once; none for
    /// an unknown label.
    pub fn direct_deps(&self, id: &TargetId) -> (r: Vec<TargetId>)
        requires
            self.well_formed(),
        ensures
            ascending(ids_of(r@)),
            forall|x: Seq<char>| ids_of(r@).contains(x) <==> self.depends(id@, x),
    {
        match self.position(id) {
            None => {
                let r: Vec<TargetId> = Vec::new();
                assert(ids_of(r@).len() == 0);
                r
            },
            Some(p) => {
                let v = dag_successors(&self.g, p);
                let n: usize = self.targets.len();
                proof {
                    assert forall|k: int| 0 <= k < v.len() implies #[trigger] v@[k] < self.specs().len() by {
                        assert(v@.contains(v@[k]));
                        assert(self.edges().contains((p as int, v@[k] as int)));
                    }
                }
                let r = self.labels(&v);
                proof {
                    assert forall|x: Seq<char>| ids_of(r@).contains(x) <==> self.depends(id@, x) by {
                        if ids_of(r@).contains(x) {
                            let k = choose|k: int| 0 <= k < v.len() && self.ids()[(#[trigger] v@[k]) as int] == x;
                            assert(v@.contains(v@[k]));
                            assert(self.edges().contains((p as int, v@[k] as int)));
                        }
                        if self.depends(id@, x) {
                            let (a, b) = choose|a: int, b: int|
                                #![trigger self.edges().contains((a, b))]
                                0 <= a < self.ids().len() && 0 <= b < self.ids().len() && self.ids()[a] == id@ && self.ids()[b] == x && self.edges().contains((a, b));
                            assert(a == p && b < n);
                            assert(v@.contains(b as usize));
                            let k = choose|k: int| 0 <= k < v@.len() && v@[k] == b as usize;
                            assert(self.ids()[v@[k] as int] == x);
                        }
                    }
                }
                r
            },
        }
    }

    /// The targets that depend directly on `id`, sorted, each once; none for
    /// an unknown label.
    pub fn direct_downstream(&self, id: &TargetId) -> (r: Vec<TargetId>)
        requires
            self.well_formed(),
        ensures
            ascending(ids_of(r@)),
            forall|x: Seq<char>| ids_of(r@).contains(x) <==> self.depends(x, id@),
    {
        match self.position(id) {
            None => {
                let r: Vec<TargetId> = Vec::new();
                assert(ids_of(r@).len() == 0);
                r
            },
            Some(p) => {
                let v = dag_predecessors(&self.g, p);
                let n: usize = self.targets.len();
                proof {
                    assert forall|k: int| 0 <= k < v.len() implies #[trigger] v@[k] < self.specs().len() by {
                        assert(v@.contains(v@[k]));
                        assert(self.edges().contains((v@[k] as int, p as int)));
                    }
                }
                let r = self.labels(&v);
                proof {
                    assert forall|x: Seq<char>| ids_of(r@).contains(x) <==> self.depends(x, id@) by {
                        if ids_of(r@).contains(x) {
                            let k = choose|k: int| 0 <= k < v.len() && self.ids()[(#[trigger] v@[k]) as int] == x;
                            assert(v@.contains(v@[k]));
                            assert(self.edges().contains((v@[k] as int, p as int)));
                        }
                        if self.depends(x, id@) {
                            let (a, b) = choose|a: int, b: int|
                                #![trigger self.edges().contains((a, b))]
                                0 <= a < self.ids().len() && 0 <= b < self.ids().len() && self.ids()[a] == x && self.ids()[b] == id@ && self.edges().contains((a, b));
                            assert(b == p && a < n);
                            assert(v@.contains(a as usize));
                            let k = choose|k: int| 0 <= k < v@.len() && v@[k] == a as usize;
                            assert(self.ids()[v@[k] as int] == x);
                        }
                    }
                }
                r
            },
        }
    }

    /// The positions that the flagged ones reach along their dependencies, or
    /// from which they are reached.
    pub fn spread(&self, seeds: &Vec<usize>, to_deps: bool) -> (r: Vec<bool>)
        requires
            self.well_formed(),
            forall|k: int| 0 <= k < seeds.len() ==> #[trigger] seeds@[k] < self.specs().len(),
        ensures
            r.len() == self.specs().len(),
            forall|x: int| 0 <= x < r.len() ==> #[trigger] r@[x] == reached(directed(self.edges(), to_deps), seeds@, x),
    {
        dag_closure(&self.g, self.targets.len(), seeds, to_deps)
    }

    /// The seeds and everything they depend on, sorted. A seed that is no
    /// target stays in.
    pub fn closure_over_deps(&self, seeds: &Vec<TargetId>) -> (r: Vec<TargetId>)
        requires
            self.well_formed(),
        ensures
            ascending(ids_of(r@)),
            forall|x: Seq<char>| ids_of(r@).contains(x) <==> in_closure(self.ids(), self.edges(), ids_of(seeds@), x),
    {
        let mut names: Vec<String> = Vec::new();
        let mut known: Vec<usize> = Vec::new();
        let mut i: usize = 0;
        while i < seeds.len()
            invariant
                i <= seeds.len(),
                self.well_formed(),
                strs(names@) == ids_of(seeds@).take(i as int),
                forall|k: int| 0 <= k < known.len() ==> #[trigger] known@[k] < self.targets@.len() && ids_of(seeds@).contains(self.ids()[known@[k] as int]),
                forall|a: usize| a < self.targets@.len() && ids_of(seeds@).take(i as int).contains(self.ids()[a as int]) ==> #[trigger] known@.contains(a),
            decreases seeds.len() - i,
        {
            let ghost sv = ids_of(seeds@);
            let ghost before = strs(names@);
            let ghost known0 = known@;
            assert(sv[i as int] == seeds@[i as int]@);
            assert(sv.take(i + 1) == sv.take(i as int).push(sv[i as int]));
            names.push(crate::text::owned(seeds[i].as_str()));
            assert(strs(names@) == before.push(sv[i as int]));
            let at = self.position(&seeds[i]);
            match at {
                Some(p) => {
                    known.push(p);
                },
                None => {},
            }
            proof {
                assert forall|a: usize| a < self.targets@.len() && sv.take(i + 1).contains(self.ids()[a as int]) implies #[trigger] known@.contains(a) by {
                    let x = self.ids()[a as int];
                    crate::order::lemma_push_contains(sv.take(i as int), sv[i as int], x);
                    if at is Some {
                        crate::order::lemma_push_contains(known0, at->0, a);
                    }
                    if x == sv[i as int] {
                        assert(self.ids().contains(x));
                        assert(at is Some && self.ids()[at->0 as int] == x);
                        assert(at->0 == a);
                    }
                }
                assert forall|k: int| 0 <= k < known@.len() implies #[trigger] known@[k] < self.targets@.len() && sv.contains(self.ids()[known@[k] as int]) by {
                    if k < known0.len() {
                        assert(known@[k] == known0[k]);
                    } else {
                        assert(self.ids()[known@[k] as int] == sv[i as int]);
                    }
                }
            }
            i = i + 1;
        }
        assert(ids_of(seeds@).take(i as int) == ids_of(seeds@));
        let marks = self.spread(&known, true);
        let mut j: usize = 0;
        while j < marks.len()
            invariant
                j <= marks.len(),
                marks.len() == self.targets@.len(),
                forall|x: Seq<char>| #[trigger] strs(names@).contains(x) <==> ids_of(seeds@).contains(x) || exists|k: int| 0 <= k < j && #[trigger] marks@[k] && self.ids()[k] == x,
            decreases marks.len() - j,
        {
            let ghost before = strs(names@);
            let ghost id = self.ids()[j as int];
            assert(id == self.targets@[j as int].id@);
            if marks[j] {
                names.push(crate::text::owned(self.targets[j].id.as_str()));
                assert(strs(names@) == before.push(id));
            }
            proof {
                assert forall|x: Seq<char>| #[trigger] strs(names@).contains(x) <==> ids_of(seeds@).contains(x) || exists|k: int| 0 <= k < j + 1 && #[trigger] marks@[k] && self.ids()[k] == x by {
                    if marks@[j as int] {
                        crate::order::lemma_push_contains(before, id, x);
                    }
                    if exists|k: int| 0 <= k < j && #[trigger] marks@[k] && self.ids()[k] == x {
                        let k = choose|k: int| 0 <= k < j && #[trigger] marks@[k] && self.ids()[k] == x;
                        assert(marks@[k]);
                    }
                    if exists|k: int| 0 <= k < j + 1 && #[trigger] marks@[k] && self.ids()[k] == x {
                        let k = choose|k: int| 0 <= k < j + 1 && #[trigger] marks@[k] && self.ids()[k] == x;
                        if k < j {
                            assert(before.contains(x));
                        }
                    }
                }
            }
            j = j + 1;
        }
        proof {
            let sv = ids_of(seeds@);
            assert forall|x: Seq<char>| strs(names@).contains(x) <==> in_closure(self.ids(), self.edges(), sv, x) by {
                if exists|k: int| 0 <= k < j && #[trigger] marks@[k] && self.ids()[k] == x {
                    let b = choose|k: int| 0 <= k < j && #[trigger] marks@[k] && self.ids()[k] == x;
                    reveal(reached);
                    let s = choose|s: int| 0 <= s < known@.len() && crate::dag::reaches(self.edges(), #[trigger] known@[s] as int, b);
                    assert(crate::dag::reaches(self.edges(), known@[s] as int, b));
                }
                if in_closure(self.ids(), self.edges(), sv, x) && !sv.contains(x) {
                    let (a, b) = choose|a: int, b: int|
                        #![trigger crate::dag::reaches(self.edges(), a, b)]
                        0 <= a < self.ids().len() && 0 <= b < self.ids().len() && sv.contains(self.ids()[a]) && self.ids()[b] == x && crate::dag::reaches(self.edges(), a, b);
                    assert(a < marks.len());
                    assert(known@.contains(a as usize));
                    let s = choose|s: int| 0 <= s < known@.len() && known@[s] == a as usize;
                    reveal(reached);
                    assert(reached(self.edges(), known@, b));
                    assert(marks@[b]);
                }
            }
        }
        let sorted = sorted_set(&names);
        ids_from(&sorted)
    }
}

/// A duplicate-free list of `n` positions below `n` holds each of them.
pub proof fn lemma_positions_cover(p: Seq<usize>, n: nat)
    requires
        p.len() == n,
        n <= usize::MAX,
        p.no_duplicates(),
        forall|i: int| 0 <= i < p.len() ==> #[trigger] p[i] < n,
    ensures
        forall|x: usize| x < n ==> #[trigger] p.contains(x),
{
    let q = p.map_values(|i: usize| i as int);
    assert(q.no_duplicates());
    q.unique_seq_to_set();
    let all = vstd::set_lib::set_int_range(0, n as int);
    vstd::set_lib::lemma_int_range(0, n as int);
    assert(q.to_set().subset_of(all)) by {
        assert forall|x: int| q.to_set().contains(x) implies all.contains(x) by {
            let a = choose|a: int| 0 <= a < q.len() && q[a] == x;
            assert(p[a] < n);
        }
    }
    vstd::set_lib::lemma_subset_equality(q.to_set(), all);
    assert forall|x: usize| x < n implies #[trigger] p.contains(x) by {
        assert(all.contains(x as int));
        assert(q.to_set().contains(x as int));
        let a = choose|a: int| 0 <= a < q.len() && q[a] == x as int;
        assert(p[a] == x);
    }
}

} // verus!
