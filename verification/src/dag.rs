//! A directed graph on positions, held by `petgraph`.

use petgraph::graph::{Graph, NodeIndex};
use petgraph::Directed;
use petgraph::Direction;
use vstd::prelude::*;

verus! {

/// `petgraph::graph::Graph`, opaque to proofs.
#[verifier::external_type_specification]
#[verifier::external_body]
#[verifier::reject_recursive_types(N)]
#[verifier::reject_recursive_types(E)]
#[verifier::reject_recursive_types(Ty)]
#[verifier::reject_recursive_types(Ix)]
pub struct ExGraph<N, E, Ty, Ix>(Graph<N, E, Ty, Ix>);

/// `petgraph::Directed`, the marker of a directed graph.
#[verifier::external_type_specification]
#[verifier::external_body]
pub struct ExDirected(Directed);

/// A directed graph whose nodes are the positions below its size.
pub type Dag = Graph<(), (), Directed, usize>;

/// The number of nodes of a graph.
pub uninterp spec fn dag_size(g: Dag) -> nat;

/// The edges of a graph, from node to node; parallel edges count once.
pub uninterp spec fn dag_edges(g: Dag) -> Set<(int, int)>;

/// `Graph::default`. Trusted: the new graph has no nodes and no edges.
#[verifier::external_body]
pub(crate) fn dag_new() -> (g: Dag)
    ensures
        dag_size(g) == 0,
        dag_edges(g) == Set::<(int, int)>::empty(),
{
    Dag::default()
}

/// `Graph::add_node`. Trusted: the new node takes the next position and comes
/// without edges. With a `usize` index the graph has no node limit of its own.
#[verifier::external_body]
pub(crate) fn dag_add_node(g: &mut Dag) -> (i: usize)
    ensures
        i == dag_size(*old(g)),
        dag_size(*final(g)) == dag_size(*old(g)) + 1,
        dag_edges(*final(g)) == dag_edges(*old(g)),
{
    g.add_node(()).index()
}

/// `Graph::clear_edges`. Trusted: every edge goes, every node stays.
#[verifier::external_body]
pub(crate) fn dag_clear_edges(g: &mut Dag)
    ensures
        dag_size(*final(g)) == dag_size(*old(g)),
        dag_edges(*final(g)) == Set::<(int, int)>::empty(),
{
    g.clear_edges()
}

/// `Graph::add_edge`. Trusted: the edge is added and nothing else changes. It
/// panics on an unknown node, so both ends have to be nodes.
#[verifier::external_body]
pub(crate) fn dag_add_edge(g: &mut Dag, a: usize, b: usize)
    requires
        a < dag_size(*old(g)),
        b < dag_size(*old(g)),
    ensures
        dag_size(*final(g)) == dag_size(*old(g)),
        dag_edges(*final(g)) == dag_edges(*old(g)).insert((a as int, b as int)),
{
    g.add_edge(NodeIndex::new(a), NodeIndex::new(b), ());
}

/// `Graph::neighbors_directed` with `Direction::Outgoing`. Trusted: it lists
/// the nodes at the far end of the edges that leave `a`.
#[verifier::external_body]
pub(crate) fn dag_successors(g: &Dag, a: usize) -> (r: Vec<usize>)
    ensures
        forall|x: usize| r@.contains(x) <==> dag_edges(*g).contains((a as int, x as int)),
{
    g.neighbors_directed(NodeIndex::new(a), Direction::Outgoing).map(|n| n.index()).collect()
}

/// `Graph::neighbors_directed` with `Direction::Incoming`. Trusted: it lists
/// the nodes from which an edge leads to `a`.
#[verifier::external_body]
pub(crate) fn dag_predecessors(g: &Dag, a: usize) -> (r: Vec<usize>)
    ensures
        forall|x: usize| r@.contains(x) <==> dag_edges(*g).contains((x as int, a as int)),
{
    g.neighbors_directed(NodeIndex::new(a), Direction::Incoming).map(|n| n.index()).collect()
}

/// `p` follows edges from each element to the next.
pub open spec fn is_walk(edges: Set<(int, int)>, p: Seq<int>) -> bool {
    forall|i: int| #![trigger p[i]] 0 <= i < p.len() - 1 ==> edges.contains((p[i], p[i + 1]))
}

/// Every element of the chain depends on the next.
pub open spec fn is_chain(edges: Set<(int, int)>, chain: Seq<int>) -> bool {
    chain.len() > 0 && forall|j: int, m: int| 0 <= j && m == j + 1 && m < chain.len() ==> edges.contains((#[trigger] chain[j], #[trigger] chain[m]))
}

/// A walk of at least one edge leads from `v` back to `v`.
pub open spec fn on_cycle(edges: Set<(int, int)>, v: int) -> bool {
    exists|p: Seq<int>|
        #![trigger is_walk(edges, p)]
        is_walk(edges, p) && p.len() >= 2 && p[0] == v && p.last() == v
}

/// `order` lists the nodes below `n` once each, every node before the nodes
/// its edges lead to.
pub open spec fn is_topological(order: Seq<usize>, n: nat, edges: Set<(int, int)>) -> bool {
    &&& order.len() == n
    &&& order.no_duplicates()
    &&& forall|i: int| 0 <= i < order.len() ==> #[trigger] order[i] < n
    &&& forall|i: int, j: int|
        #![trigger order[i], order[j]]
        0 <= i < order.len() && 0 <= j < order.len() && edges.contains(
            (order[i] as int, order[j] as int),
        ) ==> i < j
}

/// `petgraph::algo::toposort`. Trusted: it succeeds exactly on a graph without
/// cycles, with the nodes in topological order; otherwise it names a node that
/// lies on a cycle. Which order, and which node, is left open.
#[verifier::external_body]
pub(crate) fn dag_toposort(g: &Dag) -> (r: Result<Vec<usize>, usize>)
    ensures
        r is Ok <==> forall|v: int| !on_cycle(dag_edges(*g), v),
        r matches Ok(order) ==> is_topological(order@, dag_size(*g), dag_edges(*g)),
        r matches Err(v) ==> v < dag_size(*g) && on_cycle(dag_edges(*g), v as int),
{
    match petgraph::algo::toposort(g, None) {
        Ok(order) => Ok(order.into_iter().map(|n| n.index()).collect()),
        Err(cycle) => Err(cycle.node_id().index()),
    }
}

/// A walk leads from `a` to `b`; the empty walk leads from a node to itself.
#[verifier::opaque]
pub open spec fn reaches(edges: Set<(int, int)>, a: int, b: int) -> bool {
    exists|p: Seq<int>|
        #![trigger is_walk(edges, p)]
        is_walk(edges, p) && p.len() >= 1 && p[0] == a && p.last() == b
}

#[verifier::opaque]
spec fn walks(edges: Set<(int, int)>, p: Seq<int>) -> bool {
    is_walk(edges, p)
}

proof fn lemma_some_walk(edges: Set<(int, int)>, a: int, b: int) -> (p: Seq<int>)
    requires
        reaches(edges, a, b),
    ensures
        walks(edges, p),
        p.len() >= 1,
        p[0] == a,
        p.last() == b,
{
    reveal(reaches);
    reveal(walks);
    choose|p: Seq<int>|
        #![trigger is_walk(edges, p)]
        is_walk(edges, p) && p.len() >= 1 && p[0] == a && p.last() == b
}

proof fn lemma_walk_step(edges: Set<(int, int)>, p: Seq<int>, i: int)
    requires
        walks(edges, p),
        0 <= i < p.len() - 1,
    ensures
        edges.contains((p[i], p[i + 1])),
{
    reveal(walks);
    let x = p[i];
    assert(edges.contains((x, p[i + 1])));
}

/// Where a walk leads from `a` to `b`, so does a chain.
pub proof fn lemma_reaches_chain(edges: Set<(int, int)>, a: int, b: int) -> (chain: Seq<int>)
    requires
        reaches(edges, a, b),
    ensures
        is_chain(edges, chain),
        chain[0] == a,
        chain.last() == b,
{
    let p = lemma_some_walk(edges, a, b);
    assert forall|j: int, m: int| 0 <= j && m == j + 1 && m < p.len() implies edges.contains((#[trigger] p[j], #[trigger] p[m])) by {
        lemma_walk_step(edges, p, j);
    }
    p
}

/// The edges, all turned round.
pub open spec fn reversed(edges: Set<(int, int)>) -> Set<(int, int)> {
    Set::new(|e: (int, int)| edges.contains((e.1, e.0)))
}

/// The edges as they are, or turned round.
pub open spec fn directed(edges: Set<(int, int)>, forward: bool) -> Set<(int, int)> {
    if forward {
        edges
    } else {
        reversed(edges)
    }
}

/// Some seed reaches `x`.
#[verifier::opaque]
pub open spec fn reached(edges: Set<(int, int)>, seeds: Seq<usize>, x: int) -> bool {
    exists|k: int| 0 <= k < seeds.len() && reaches(edges, #[trigger] seeds[k] as int, x)
}

/// Every node reaches itself.
pub proof fn lemma_reaches_self(edges: Set<(int, int)>, a: int)
    ensures
        reaches(edges, a, a),
{
    reveal(reaches);
    let p = seq![a];
    assert(is_walk(edges, p));
    assert(p[0] == a && p.last() == a);
}

/// One more edge extends a walk.
pub proof fn lemma_reaches_step(edges: Set<(int, int)>, a: int, b: int, c: int)
    requires
        reaches(edges, a, b),
        edges.contains((b, c)),
    ensures
        reaches(edges, a, c),
{
    reveal(reaches);
    let p = choose|p: Seq<int>|
        #![trigger is_walk(edges, p)]
        is_walk(edges, p) && p.len() >= 1 && p[0] == a && p.last() == b;
    let q = p.push(c);
    assert forall|i: int| #![trigger q[i]] 0 <= i < q.len() - 1 implies edges.contains(
        (q[i], q[i + 1]),
    ) by {
        if i < p.len() - 1 {
            assert(p[i] == q[i]);
        }
    }
    assert(is_walk(edges, q));
    assert(q[0] == a && q.last() == c);
}

/// A set of positions that holds `a` and whatever its edges lead to holds all
/// that `a` reaches.
pub proof fn lemma_closed_holds_reached(
    edges: Set<(int, int)>,
    inside: spec_fn(int) -> bool,
    a: int,
    b: int,
)
    requires
        inside(a),
        forall|x: int, y: int| #![trigger edges.contains((x, y))] inside(x) && edges.contains((x, y)) ==> inside(y),
        reaches(edges, a, b),
    ensures
        inside(b),
{
    reveal(reaches);
    let p = choose|p: Seq<int>|
        #![trigger is_walk(edges, p)]
        is_walk(edges, p) && p.len() >= 1 && p[0] == a && p.last() == b;
    lemma_closed_along(edges, inside, p, p.len() as int - 1);
}

proof fn lemma_closed_along(
    edges: Set<(int, int)>,
    inside: spec_fn(int) -> bool,
    p: Seq<int>,
    k: int,
)
    requires
        is_walk(edges, p),
        0 <= k < p.len(),
        inside(p[0]),
        forall|x: int, y: int| #![trigger edges.contains((x, y))] inside(x) && edges.contains((x, y)) ==> inside(y),
    ensures
        inside(p[k]),
    decreases k,
{
    if k > 0 {
        lemma_closed_along(edges, inside, p, k - 1);
        assert(edges.contains((p[k - 1], p[k - 1 + 1])));
    }
}

/// The number of positions not yet marked.
spec fn unmarked(v: Seq<bool>) -> nat
    decreases v.len(),
{
    if v.len() == 0 {
        0
    } else {
        unmarked(v.drop_last()) + if v.last() {
            0nat
        } else {
            1nat
        }
    }
}

proof fn lemma_mark(v: Seq<bool>, i: int)
    requires
        0 <= i < v.len(),
        !v[i],
    ensures
        unmarked(v.update(i, true)) + 1 == unmarked(v),
    decreases v.len(),
{
    if i == v.len() - 1 {
        assert(v.update(i, true).drop_last() == v.drop_last());
    } else {
        assert(v.update(i, true).drop_last() == v.drop_last().update(i, true));
        lemma_mark(v.drop_last(), i);
    }
}

/// Marks the positions that the seeds reach along the edges, or against them.
pub fn dag_closure(g: &Dag, n: usize, seeds: &Vec<usize>, forward: bool) -> (r: Vec<bool>)
    requires
        n == dag_size(*g),
        forall|k: int| 0 <= k < seeds.len() ==> #[trigger] seeds@[k] < n,
        within(n as int, dag_edges(*g)),
    ensures
        r.len() == n,
        forall|x: int| 0 <= x < n ==> #[trigger] r@[x] == reached(directed(dag_edges(*g), forward), seeds@, x),
{
    let ghost e = directed(dag_edges(*g), forward);
    let mut marked: Vec<bool> = Vec::new();
    let mut i: usize = 0;
    while i < n
        invariant
            i <= n,
            marked.len() == i,
            forall|k: int| 0 <= k < i ==> !#[trigger] marked@[k],
        decreases n - i,
    {
        marked.push(false);
        i = i + 1;
    }
    let mut stack: Vec<usize> = Vec::new();
    let mut j: usize = 0;
    while j < seeds.len()
        invariant
            j <= seeds.len(),
            stack@ == seeds@.take(j as int),
        decreases seeds.len() - j,
    {
        stack.push(seeds[j]);
        j = j + 1;
    }
    assert(stack@ == seeds@);
    proof {
        assert forall|k: int| 0 <= k < stack@.len() implies reached(e, seeds@, #[trigger] stack@[k] as int) by {
            reveal(reached);
            lemma_reaches_self(e, seeds@[k] as int);
            assert(reaches(e, seeds@[k] as int, seeds@[k] as int));
        }
        assert forall|k: int| 0 <= k < seeds@.len() implies stack@.contains(#[trigger] seeds@[k]) by {
            assert(stack@[k] == seeds@[k]);
        }
        assert forall|a: int, b: int| #![trigger e.contains((a, b))] e.contains((a, b)) implies 0 <= a < n && 0 <= b < n by {
            if forward {
                assert(dag_edges(*g).contains((a, b)));
            } else {
                assert(dag_edges(*g).contains((b, a)));
            }
        }
    }
    assert(search_state(n as int, e, seeds@, marked@, stack@));
    while stack.len() > 0
        invariant
            n == dag_size(*g),
            marked.len() == n,
            e == directed(dag_edges(*g), forward),
            within(n as int, e),
            search_state(n as int, e, seeds@, marked@, stack@),
        decreases unmarked(marked@), stack.len(),
    {
        let ghost before = stack@;
        let ghost marks = marked@;
        let v: usize = stack[stack.len() - 1];
        assert(v < n);
        stack.pop();
        if !marked[v] {
            proof {
                lemma_mark(marked@, v as int);
            }
            marked.set(v, true);
            let mut next = if forward {
                dag_successors(g, v)
            } else {
                dag_predecessors(g, v)
            };
            let ghost found = next@;
            assert(forall|y: usize| found.contains(y) <==> e.contains((v as int, y as int)));
            stack.append(&mut next);
            proof {
                lemma_search_visit(n as int, e, seeds@, marks, before, found);
            }
        } else {
            proof {
                lemma_search_skip(n as int, e, seeds@, marks, before);
            }
        }
    }
    proof {
        lemma_search_done(n as int, e, seeds@, marked@);
    }
    marked
}

/// Every edge joins positions below `n`.
pub open spec fn within(n: int, edges: Set<(int, int)>) -> bool {
    forall|a: int, b: int| #![trigger edges.contains((a, b))] edges.contains((a, b)) ==> 0 <= a < n && 0 <= b < n
}

/// What holds between two steps of the search: what is marked or waiting is
/// reached, and what a seed or a marked position leads to is marked or waiting.
spec fn search_state(
    n: int,
    e: Set<(int, int)>,
    seeds: Seq<usize>,
    marked: Seq<bool>,
    stack: Seq<usize>,
) -> bool {
    &&& marked.len() == n
    &&& forall|k: int| 0 <= k < stack.len() ==> #[trigger] stack[k] < n
    &&& forall|k: int| 0 <= k < stack.len() ==> reached(e, seeds, #[trigger] stack[k] as int)
    &&& forall|x: int| 0 <= x < n && #[trigger] marked[x] ==> reached(e, seeds, x)
    &&& forall|k: int| 0 <= k < seeds.len() ==> #[trigger] seeds[k] < n
    &&& forall|k: int| 0 <= k < seeds.len() ==> marked[(#[trigger] seeds[k]) as int] || stack.contains(seeds[k])
    &&& forall|x: int, y: usize| #![trigger e.contains((x, y as int))] 0 <= x < n && marked[x] && e.contains((x, y as int)) ==> marked[y as int] || stack.contains(y)
}

proof fn lemma_search_skip(n: int, e: Set<(int, int)>, seeds: Seq<usize>, marked: Seq<bool>, stack: Seq<usize>)
    requires
        search_state(n, e, seeds, marked, stack),
        stack.len() > 0,
        marked[stack.last() as int],
    ensures
        search_state(n, e, seeds, marked, stack.drop_last()),
{
    let rest = stack.drop_last();
    assert forall|y: usize| stack.contains(y) && y != stack.last() implies rest.contains(y) by {
        let k = choose|k: int| 0 <= k < stack.len() && stack[k] == y;
        assert(rest[k] == y);
    }
}

proof fn lemma_search_visit(
    n: int,
    e: Set<(int, int)>,
    seeds: Seq<usize>,
    marked: Seq<bool>,
    stack: Seq<usize>,
    found: Seq<usize>,
)
    requires
        search_state(n, e, seeds, marked, stack),
        within(n, e),
        stack.len() > 0,
        forall|y: usize| found.contains(y) <==> e.contains((stack.last() as int, y as int)),
    ensures
        search_state(n, e, seeds, marked.update(stack.last() as int, true), stack.drop_last() + found),
{
    let v = stack.last();
    let rest = stack.drop_last() + found;
    let marks = marked.update(v as int, true);
    assert forall|y: usize| stack.contains(y) && y != v implies rest.contains(y) by {
        let k = choose|k: int| 0 <= k < stack.len() && stack[k] == y;
        assert(rest[k] == y);
    }
    assert forall|y: usize| found.contains(y) implies rest.contains(y) by {
        let k = choose|k: int| 0 <= k < found.len() && found[k] == y;
        assert(rest[stack.len() - 1 + k] == y);
    }
    assert forall|k: int| 0 <= k < rest.len() implies (#[trigger] rest[k]) < n && reached(e, seeds, rest[k] as int) by {
        if k < stack.len() - 1 {
            assert(rest[k] == stack[k]);
        } else {
            let w = found[k - (stack.len() - 1)];
            assert(rest[k] == w);
            assert(found.contains(w));
            assert(e.contains((v as int, w as int)));
            assert(reached(e, seeds, stack[stack.len() - 1] as int));
            reveal(reached);
            let s = choose|s: int| 0 <= s < seeds.len() && reaches(e, #[trigger] seeds[s] as int, v as int);
            lemma_reaches_step(e, seeds[s] as int, v as int, w as int);
        }
    }
    assert(reached(e, seeds, stack[stack.len() - 1] as int));
}

proof fn lemma_search_done(n: int, e: Set<(int, int)>, seeds: Seq<usize>, marked: Seq<bool>)
    requires
        search_state(n, e, seeds, marked, Seq::<usize>::empty()),
        within(n, e),
        n <= usize::MAX,
    ensures
        forall|x: int| 0 <= x < n ==> #[trigger] marked[x] == reached(e, seeds, x),
{
    let none = Seq::<usize>::empty();
    let inside = |x: int| 0 <= x < n && marked[x];
    assert forall|x: int, y: int| #![trigger e.contains((x, y))] inside(x) && e.contains((x, y)) implies inside(y) by {
        let yu = y as usize;
        assert(e.contains((x, yu as int)));
        assert(!none.contains(yu));
    }
    assert forall|x: int| 0 <= x < n implies #[trigger] marked[x] == reached(e, seeds, x) by {
        if reached(e, seeds, x) {
            reveal(reached);
            let s = choose|s: int| 0 <= s < seeds.len() && reaches(e, #[trigger] seeds[s] as int, x);
            assert(!none.contains(seeds[s]));
            assert(inside(seeds[s] as int));
            lemma_closed_holds_reached(e, inside, seeds[s] as int, x);
        }
    }
}

} // verus!
