//! From a selection of targets to a build plan.

use crate::dispatch::Plan;
use crate::graph::{deps_first, has_cycle, in_closure, names_cycle, BuildGraph, GraphError};
use crate::model::{ids_of, TargetId};
use crate::order::ascending;
use vstd::prelude::*;

verus! {

/// The position of `id` in `v`.
pub fn find_id(v: &Vec<TargetId>, id: &TargetId) -> (r: Option<usize>)
    ensures
        r is Some <==> ids_of(v@).contains(id@),
        r matches Some(i) ==> i < v.len() && ids_of(v@)[i as int] == id@,
{
    let mut i: usize = 0;
    while i < v.len()
        invariant
            i <= v.len(),
            forall|k: int| 0 <= k < i ==> ids_of(v@)[k] != id@,
        decreases v.len() - i,
    {
        assert(ids_of(v@)[i as int] == v@[i as int]@);
        if v[i].same(id) {
            return Some(i);
        }
        i = i + 1;
    }
    None
}

/// The labels at the positions `at`.
pub open spec fn labels_at(ids: Seq<Seq<char>>, at: Seq<usize>) -> Seq<Seq<char>> {
    at.map_values(|i: usize| ids[i as int])
}

/// What a selection needs is closed: with a target it holds the targets that
/// one depends on.
pub proof fn law_closure_closed(g: &BuildGraph, seeds: Seq<Seq<char>>, x: Seq<char>, y: Seq<char>)
    requires
        g.well_formed(),
        in_closure(g.ids(), g.edges(), seeds, x),
        g.depends(x, y),
    ensures
        in_closure(g.ids(), g.edges(), seeds, y),
{
    g.lemma_well_formed();
    let ids = g.ids();
    let e = g.edges();
    let (p, d) = choose|p: int, d: int|
        #![trigger e.contains((p, d))]
        0 <= p < ids.len() && 0 <= d < ids.len() && ids[p] == x && ids[d] == y && e.contains((p, d));
    if seeds.contains(x) {
        crate::dag::lemma_reaches_self(e, p);
        crate::dag::lemma_reaches_step(e, p, p, d);
        assert(crate::dag::reaches(e, p, d));
    } else {
        let (a, b) = choose|a: int, b: int|
            #![trigger crate::dag::reaches(e, a, b)]
            0 <= a < ids.len() && 0 <= b < ids.len() && seeds.contains(ids[a]) && ids[b] == x && crate::dag::reaches(e, a, b);
        assert(b == p);
        crate::dag::lemma_reaches_step(e, a, b, d);
        assert(crate::dag::reaches(e, a, d));
    }
}

/// `v` without the entries whose label is not in `keep`, in order.
fn restrict(v: &Vec<TargetId>, keep: &Vec<TargetId>) -> (r: Vec<TargetId>)
    requires
        ids_of(v@).no_duplicates(),
    ensures
        ids_of(r@).no_duplicates(),
        forall|x: Seq<char>| ids_of(r@).contains(x) <==> ids_of(v@).contains(x) && ids_of(keep@).contains(x),
        keeps_order(ids_of(r@), ids_of(v@)),
{
    let mut out: Vec<TargetId> = Vec::new();
    let ghost mut src: Seq<int> = Seq::empty();
    let ghost vv = ids_of(v@);
    let ghost kv = ids_of(keep@);
    let mut i: usize = 0;
    while i < v.len()
        invariant
            i <= v.len(),
            vv == ids_of(v@),
            kv == ids_of(keep@),
            src.len() == out.len(),
            forall|a: int| 0 <= a < src.len() ==> 0 <= #[trigger] src[a] < i && ids_of(out@)[a] == vv[src[a]],
            forall|a: int, b: int| 0 <= a < b < src.len() ==> #[trigger] src[a] < #[trigger] src[b],
            forall|x: Seq<char>| #[trigger] ids_of(out@).contains(x) <==> vv.take(i as int).contains(x) && kv.contains(x),
        decreases v.len() - i,
    {
        let ghost before = ids_of(out@);
        assert(vv[i as int] == v@[i as int]@);
        assert(vv.take(i + 1) == vv.take(i as int).push(vv[i as int]));
        let keep_it: bool = find_id(keep, &v[i]).is_some();
        if keep_it {
            out.push(v[i].clone());
            proof {
                src = src.push(i as int);
                assert(ids_of(out@) == before.push(vv[i as int]));
            }
        }
        proof {
            assert forall|x: Seq<char>| #[trigger] ids_of(out@).contains(x) <==> vv.take(i + 1).contains(x) && kv.contains(x) by {
                crate::order::lemma_push_contains(vv.take(i as int), vv[i as int], x);
                if keep_it {
                    crate::order::lemma_push_contains(before, vv[i as int], x);
                }
                assert(before.contains(x) <==> vv.take(i as int).contains(x) && kv.contains(x));
            }
            assert forall|a: int| 0 <= a < src.len() implies 0 <= #[trigger] src[a] < i + 1 && ids_of(out@)[a] == vv[src[a]] by {
                if a < before.len() {
                    assert(ids_of(out@)[a] == before[a]);
                }
            }
        }
        i = i + 1;
    }
    proof {
        assert(vv.take(i as int) == vv);
        let ov = ids_of(out@);
        assert forall|a: int, b: int| 0 <= a < ov.len() && 0 <= b < ov.len() && a != b implies ov[a] != ov[b] by {
            if a < b {
                assert(src[a] < src[b]);
            } else {
                assert(src[b] < src[a]);
            }
        }
        assert forall|a: int, b: int, c: int, d: int|
            #![trigger ov[a], ov[b], vv[c], vv[d]]
            0 <= a < ov.len() && 0 <= b < ov.len() && 0 <= c < d < vv.len() && ov[a] == vv[c] && ov[b] == vv[d] implies a < b by {
            assert(vv[src[a]] == vv[c] && vv[src[b]] == vv[d]);
            assert(src[a] == c && src[b] == d);
            if b < a {
                assert(src[b] < src[a]);
            }
        }
    }
    out
}

/// What stands in `a` stands there in the order of `b`.
pub open spec fn keeps_order(a: Seq<Seq<char>>, b: Seq<Seq<char>>) -> bool {
    forall|i: int, j: int, k: int, m: int|
        #![trigger a[i], a[j], b[k], b[m]]
        0 <= i < a.len() && 0 <= j < a.len() && 0 <= k < m < b.len() && a[i] == b[k] && a[j] == b[m] ==> i < j
}

/// The positions in `ids` of those of `names` that are there, in order.
fn locate(ids: &Vec<TargetId>, names: &Vec<TargetId>) -> (r: Vec<usize>)
    requires
        ids_of(ids@).no_duplicates(),
        ascending(ids_of(names@)),
    ensures
        r@.no_duplicates(),
        forall|k: int| 0 <= k < r.len() ==> #[trigger] r@[k] < ids.len(),
        ascending(labels_at(ids_of(ids@), r@)),
        forall|i: usize| r@.contains(i) <==> i < ids.len() && ids_of(names@).contains(ids_of(ids@)[i as int]),
{
    let ghost iv = ids_of(ids@);
    let ghost nv = ids_of(names@);
    let mut out: Vec<usize> = Vec::new();
    let ghost mut src: Seq<int> = Seq::empty();
    let mut k: usize = 0;
    while k < names.len()
        invariant
            k <= names.len(),
            iv == ids_of(ids@),
            nv == ids_of(names@),
            iv.no_duplicates(),
            src.len() == out.len(),
            forall|a: int| 0 <= a < out.len() ==> #[trigger] out@[a] < ids.len() && 0 <= src[a] < k && iv[out@[a] as int] == nv[src[a]],
            forall|a: int| 0 <= a < src.len() ==> #[trigger] src[a] < k,
            forall|a: int, b: int| 0 <= a < b < src.len() ==> #[trigger] src[a] < #[trigger] src[b],
            forall|i: usize| #[trigger] out@.contains(i) <==> i < ids.len() && nv.take(k as int).contains(iv[i as int]),
        decreases names.len() - k,
    {
        let ghost before = out@;
        assert(nv[k as int] == names@[k as int]@);
        assert(nv.take(k + 1) == nv.take(k as int).push(nv[k as int]));
        let at = find_id(ids, &names[k]);
        match at {
            Some(i) => {
                out.push(i);
                proof {
                    src = src.push(k as int);
                }
            },
            None => {},
        }
        proof {
            assert forall|i: usize| #[trigger] out@.contains(i) <==> i < ids.len() && nv.take(k + 1).contains(iv[i as int]) by {
                if i < ids.len() {
                    crate::order::lemma_push_contains(nv.take(k as int), nv[k as int], iv[i as int]);
                }
                if at is Some {
                    crate::order::lemma_push_contains(before, at->0, i);
                    if i < ids.len() && iv[i as int] == nv[k as int] {
                        assert(i == at->0);
                    }
                } else if i < ids.len() && iv[i as int] == nv[k as int] {
                    assert(iv.contains(nv[k as int]));
                }
                assert(before.contains(i) <==> i < ids.len() && nv.take(k as int).contains(iv[i as int]));
            }
            assert forall|a: int| 0 <= a < out@.len() implies #[trigger] out@[a] < ids.len() && 0 <= src[a] < k + 1 && iv[out@[a] as int] == nv[src[a]] by {
                if a < before.len() {
                    assert(out@[a] == before[a]);
                }
            }
        }
        k = k + 1;
    }
    proof {
        assert(nv.take(k as int) == nv);
        let lv = labels_at(iv, out@);
        assert forall|a: int, b: int| 0 <= a < b < lv.len() implies crate::text::str_lt(#[trigger] lv[a], #[trigger] lv[b]) by {
            assert(src[a] < src[b]);
            assert(iv[out@[a] as int] == nv[src[a]] && iv[out@[b] as int] == nv[src[b]]);
        }
        assert forall|a: int, b: int| 0 <= a < out@.len() && 0 <= b < out@.len() && a != b implies out@[a] != out@[b] by {
            assert(lv[a] == iv[out@[a] as int] && lv[b] == iv[out@[b] as int]);
            crate::text::lemma_bytes_lt_irreflexive(crate::text::utf8(lv[a]));
            if a < b {
                assert(crate::text::str_lt(lv[a], lv[b]));
            } else {
                assert(crate::text::str_lt(lv[b], lv[a]));
            }
        }
    }
    out
}

/// `plan` is a plan for building `selection` in `g`: it holds the known targets
/// that the selection needs, and the dependencies and users of each among
/// them, sorted by label.
pub open spec fn plan_for(plan: Plan, g: &BuildGraph, selection: Seq<Seq<char>>) -> bool {
    let ids = ids_of(plan.ids@);
    &&& plan.well_formed()
    &&& ids.no_duplicates()
    &&& forall|x: Seq<char>| ids.contains(x) <==> g.ids().contains(x) && in_closure(g.ids(), g.edges(), selection, x)
    &&& forall|p: int| 0 <= p < ids.len() ==> ascending(labels_at(ids, (#[trigger] plan.deps@[p])@))
    &&& forall|p: int| 0 <= p < ids.len() ==> ascending(labels_at(ids, (#[trigger] plan.users@[p])@))
    &&& forall|p: int, d: usize| #![trigger plan.deps@[p]@.contains(d)] 0 <= p < ids.len() ==> (plan.deps@[p]@.contains(d) <==> d < ids.len() && g.depends(ids[p], ids[d as int]))
}

/// In a plan no dependency of a target is missing: whatever a planned target
/// depends on is planned, before it.
pub proof fn law_plan_complete(plan: Plan, g: &BuildGraph, selection: Seq<Seq<char>>, p: int, y: Seq<char>)
    requires
        g.well_formed(),
        plan_for(plan, g, selection),
        0 <= p < plan.ids@.len(),
        g.depends(plan.ids@[p]@, y),
    ensures
        exists|d: int| 0 <= d < p && (#[trigger] plan.ids@[d])@ == y && plan.deps@[p]@.contains(d as usize),
{
    let ids = ids_of(plan.ids@);
    assert(ids[p] == plan.ids@[p]@);
    assert(ids.contains(ids[p]));
    law_closure_closed(g, selection, ids[p], y);
    let (a, b) = choose|a: int, b: int|
        #![trigger g.edges().contains((a, b))]
        0 <= a < g.ids().len() && 0 <= b < g.ids().len() && g.ids()[a] == ids[p] && g.ids()[b] == y && g.edges().contains((a, b));
    assert(g.ids().contains(y));
    assert(ids.contains(y));
    let d = choose|d: int| 0 <= d < ids.len() && ids[d] == y;
    assert(plan.ids@[d]@ == y);
    assert(d as usize == d);
    assert(plan.deps@[p]@.contains(d as usize));
    let k = choose|k: int| 0 <= k < plan.deps@[p]@.len() && plan.deps@[p]@[k] == d as usize;
    assert(plan.deps@[p]@[k] < p);
}

/// The plan for building `selection`.
pub fn make_plan(g: &BuildGraph, selection: &Vec<TargetId>) -> (r: Result<Plan, GraphError>)
    requires
        g.well_formed(),
        g.specs().len() <= u32::MAX,
    ensures
        r is Ok <==> !has_cycle(g.edges()),
        r matches Ok(plan) ==> plan_for(plan, g, ids_of(selection@)),
        r matches Err(e) ==> (e matches GraphError::Cycle(m) && names_cycle(g.ids(), g.edges(), m@)),
{
    let order = match g.topo_order() {
        Err(e) => {
            return Err(e);
        },
        Ok(order) => order,
    };
    let needed = g.closure_over_deps(selection);
    let ids = restrict(&order, &needed);
    let ghost iv = ids_of(ids@);
    let ghost ov = ids_of(order@);
    let ghost sv = ids_of(selection@);
    let n: usize = ids.len();
    proof {
        g.lemma_well_formed();
        lemma_no_longer(iv, ov);
    }
    let mut deps: Vec<Vec<usize>> = Vec::new();
    let mut users: Vec<Vec<usize>> = Vec::new();
    let mut p: usize = 0;
    while p < n
        invariant
            p <= n,
            n == ids.len(),
            iv == ids_of(ids@),
            iv.no_duplicates(),
            g.well_formed(),
            deps.len() == p,
            users.len() == p,
            forall|q: int| 0 <= q < p ==> (#[trigger] deps@[q])@.no_duplicates() && ascending(labels_at(iv, deps@[q]@)),
            forall|q: int| 0 <= q < p ==> (#[trigger] users@[q])@.no_duplicates() && ascending(labels_at(iv, users@[q]@)),
            forall|q: int, d: usize| #![trigger deps@[q]@.contains(d)] 0 <= q < p ==> (deps@[q]@.contains(d) <==> d < n && g.depends(iv[q], iv[d as int])),
            forall|q: int, d: usize| #![trigger users@[q]@.contains(d)] 0 <= q < p ==> (users@[q]@.contains(d) <==> d < n && g.depends(iv[d as int], iv[q])),
        decreases n - p,
    {
        assert(iv[p as int] == ids@[p as int]@);
        let dn = g.direct_deps(&ids[p]);
        let un = g.direct_downstream(&ids[p]);
        let d = locate(&ids, &dn);
        let u = locate(&ids, &un);
        deps.push(d);
        users.push(u);
        p = p + 1;
    }
    let plan = Plan { ids, deps, users };
    proof {
        assert forall|q: int, k: int| #![trigger plan.deps@[q]@[k]] 0 <= q < n && 0 <= k < plan.deps@[q]@.len() implies plan.deps@[q]@[k] < q by {
            let d = plan.deps@[q]@[k];
            assert(plan.deps@[q]@.contains(d));
            assert(g.depends(iv[q], iv[d as int]));
            lemma_deps_precede(g, ov, iv, q, d as int);
        }
        assert forall|q: int, k: int| #![trigger plan.users@[q]@[k]] 0 <= q < n && 0 <= k < plan.users@[q]@.len() implies plan.users@[q]@[k] < n by {
            assert(plan.users@[q]@.contains(plan.users@[q]@[k]));
        }
        assert(plan.well_formed());
    }
    Ok(plan)
}

proof fn lemma_no_longer(a: Seq<Seq<char>>, b: Seq<Seq<char>>)
    requires
        a.no_duplicates(),
        b.no_duplicates(),
        forall|x: Seq<char>| a.contains(x) ==> b.contains(x),
    ensures
        a.len() <= b.len(),
{
    a.unique_seq_to_set();
    b.unique_seq_to_set();
    assert(a.to_set().subset_of(b.to_set()));
    vstd::set_lib::lemma_len_subset(a.to_set(), b.to_set());
}

proof fn lemma_deps_precede(g: &BuildGraph, order: Seq<Seq<char>>, ids: Seq<Seq<char>>, p: int, d: int)
    requires
        deps_first(order, g.ids(), g.edges()),
        keeps_order(ids, order),
        ids.no_duplicates(),
        forall|x: Seq<char>| ids.contains(x) ==> order.contains(x),
        0 <= p < ids.len(),
        0 <= d < ids.len(),
        g.depends(ids[p], ids[d]),
    ensures
        d < p,
{
    let (a, b) = choose|a: int, b: int|
        #![trigger g.edges().contains((a, b))]
        0 <= a < g.ids().len() && 0 <= b < g.ids().len() && g.ids()[a] == ids[p] && g.ids()[b] == ids[d] && g.edges().contains((a, b));
    assert(ids.contains(ids[p]) && ids.contains(ids[d]));
    assert(order.contains(ids[p]) && order.contains(ids[d]));
    let i = choose|i: int| 0 <= i < order.len() && order[i] == ids[p];
    let j = choose|j: int| 0 <= j < order.len() && order[j] == ids[d];
    assert(j < i);
    assert(ids[d] == order[j] && ids[p] == order[i]);
}

/// A plan holds what is selected and everything that a chain of dependencies leads
/// to from there, each once.
pub proof fn law_plan_holds_needed(plan: Plan, g: &BuildGraph, selection: Seq<Seq<char>>, chain: Seq<int>)
    requires
        plan_for(plan, g, selection),
        crate::dag::is_chain(g.edges(), chain),
        0 <= chain[0] < g.ids().len(),
        0 <= chain.last() < g.ids().len(),
        selection.contains(g.ids()[chain[0]]),
    ensures
        exists|p: int| 0 <= p < plan.ids@.len() && (#[trigger] plan.ids@[p])@ == g.ids()[chain.last()],
        forall|p: int, q: int|
            0 <= p < plan.ids@.len() && 0 <= q < plan.ids@.len() && (#[trigger] plan.ids@[p])@ == (#[trigger] plan.ids@[q])@ ==> p == q,
{
    let ids = ids_of(plan.ids@);
    let x = g.ids()[chain.last()];
    crate::graph::law_chain_is_needed(g.ids(), g.edges(), selection, chain);
    assert(g.ids().contains(x));
    assert(ids.contains(x));
    let p = choose|p: int| 0 <= p < ids.len() && ids[p] == x;
    assert(plan.ids@[p]@ == x);
    assert forall|p: int, q: int|
        0 <= p < plan.ids@.len() && 0 <= q < plan.ids@.len() && (#[trigger] plan.ids@[p])@ == (#[trigger] plan.ids@[q])@ implies p == q by {
        assert(ids[p] == ids[q]);
    }
}

/// A plan holds nothing else.
pub proof fn law_plan_holds_no_more(plan: Plan, g: &BuildGraph, selection: Seq<Seq<char>>, p: int)
    requires
        plan_for(plan, g, selection),
        0 <= p < plan.ids@.len(),
    ensures
        g.ids().contains(plan.ids@[p]@),
        selection.contains(plan.ids@[p]@) || exists|chain: Seq<int>|
            #[trigger] crate::dag::is_chain(g.edges(), chain) && 0 <= chain[0] < g.ids().len() && selection.contains(g.ids()[chain[0]]) && 0
                <= chain.last() < g.ids().len() && g.ids()[chain.last()] == plan.ids@[p]@,
{
    let ids = ids_of(plan.ids@);
    assert(ids[p] == plan.ids@[p]@);
    assert(ids.contains(ids[p]));
    crate::graph::law_needed_has_chain(g.ids(), g.edges(), selection, ids[p]);
}

/// What is left of an order stands in that order: of two targets, the one that
/// stood first still does.
pub proof fn law_order_kept(a: Seq<Seq<char>>, b: Seq<Seq<char>>, i: int, j: int, k: int, m: int)
    requires
        keeps_order(a, b),
        0 <= i < a.len(),
        0 <= j < a.len(),
        0 <= k < b.len(),
        0 <= m < b.len(),
        a[i] == b[k],
        a[j] == b[m],
        i < j,
    ensures
        k <= m,
{
    if m < k {
        assert(a[j] == b[m] && a[i] == b[k]);
    }
}

} // verus!
