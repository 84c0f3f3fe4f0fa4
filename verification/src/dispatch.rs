//! The dispatcher of a build: which target may start, which has to be skipped,
//! and when the build is over.
//!
//! Targets are numbered in plan order, dependencies first. The dispatcher
//! decides; running a target and waiting for it is the caller's part.

use crate::events::TargetCounts;
use crate::model::{CacheKey, ContentHash, TargetId};
use std::collections::VecDeque;
use vstd::prelude::*;

verus! {

/// How far a target has come.
#[derive(Debug, Clone, Copy, PartialEq, Eq, Structural)]
pub enum Progress {
    /// Some dependency is not settled yet.
    Waiting,
    /// All dependencies are settled; the target is in the queue.
    Ready,
    Running,
    Succeeded,
    Failed,
    /// Not run, because a dependency failed or was skipped.
    Skipped,
}

/// The target's fate is known.
pub open spec fn settled(p: Progress) -> bool {
    p is Succeeded || p is Failed || p is Skipped
}

/// The target failed or was skipped.
pub open spec fn broken(p: Progress) -> bool {
    p is Failed || p is Skipped
}

/// What to build: targets with dependencies first, the dependencies of each as
/// positions, and the reverse.
#[derive(Debug)]
pub struct Plan {
    pub ids: Vec<TargetId>,
    pub deps: Vec<Vec<usize>>,
    pub users: Vec<Vec<usize>>,
}

impl Plan {
    /// Dependencies stand before their users, no dependency is listed twice,
    /// and `users` is `deps` turned round.
    pub open spec fn well_formed(&self) -> bool {
        let n = self.ids@.len();
        &&& n <= u32::MAX
        &&& self.deps@.len() == n
        &&& self.users@.len() == n
        &&& forall|p: int| 0 <= p < n ==> (#[trigger] self.deps@[p])@.no_duplicates()
        &&& forall|p: int| 0 <= p < n ==> (#[trigger] self.users@[p])@.no_duplicates()
        &&& forall|p: int, k: int| #![trigger self.deps@[p]@[k]] 0 <= p < n && 0 <= k < self.deps@[p]@.len() ==> self.deps@[p]@[k] < p
        &&& forall|p: int, k: int| #![trigger self.users@[p]@[k]] 0 <= p < n && 0 <= k < self.users@[p]@.len() ==> self.users@[p]@[k] < n
        &&& forall|d: int, p: int| #![trigger self.users@[d]@.contains(p as usize)] 0 <= d < n && 0 <= p < n ==> (self.users@[d]@.contains(p as usize) <==> self.deps@[p]@.contains(d as usize))
    }
}

/// The number of entries of `deps` that are not settled.
pub open spec fn open_deps(deps: Seq<usize>, progress: Seq<Progress>) -> nat
    decreases deps.len(),
{
    if deps.len() == 0 {
        0
    } else {
        open_deps(deps.drop_last(), progress) + if settled(progress[deps.last() as int]) {
            0nat
        } else {
            1nat
        }
    }
}

/// The number of running targets changes only with the one target that neither
/// waited nor kept its progress.
proof fn lemma_running(a: Seq<Progress>, b: Seq<Progress>, x: int)
    requires
        a.len() == b.len(),
        forall|i: int| 0 <= i < a.len() && i != x ==> (if (#[trigger] a[i]) is Waiting { b[i] is Waiting || b[i] is Ready } else { b[i] == a[i] }),
    ensures
        tally(b, Progress::Running) == tally(a, Progress::Running) + (if 0 <= x < a.len() && b[x] is Running {
            1int
        } else {
            0int
        }) - (if 0 <= x < a.len() && a[x] is Running {
            1int
        } else {
            0int
        }),
    decreases a.len(),
{
    if a.len() > 0 {
        let n = a.len() - 1;
        assert forall|i: int| 0 <= i < n && i != x implies (if (#[trigger] a.drop_last()[i]) is Waiting { b.drop_last()[i] is Waiting || b.drop_last()[i] is Ready } else { b.drop_last()[i] == a.drop_last()[i] }) by {
            assert(a[i] == a.drop_last()[i]);
        }
        lemma_running(a.drop_last(), b.drop_last(), x);
        assert(a[n] == a.last());
    }
}

/// The number of targets whose progress is `q`.
pub open spec fn tally(progress: Seq<Progress>, q: Progress) -> nat
    decreases progress.len(),
{
    if progress.len() == 0 {
        0
    } else {
        tally(progress.drop_last(), q) + if progress.last() == q {
            1nat
        } else {
            0nat
        }
    }
}

pub proof fn lemma_tally_update(progress: Seq<Progress>, i: int, to: Progress, q: Progress)
    requires
        0 <= i < progress.len(),
    ensures
        tally(progress.update(i, to), q) == tally(progress, q) - (if progress[i] == q {
            1int
        } else {
            0int
        }) + (if to == q {
            1int
        } else {
            0int
        }),
    decreases progress.len(),
{
    let u = progress.update(i, to);
    if i == progress.len() - 1 {
        assert(u.drop_last() == progress.drop_last());
    } else {
        assert(u.drop_last() == progress.drop_last().update(i, to));
        lemma_tally_update(progress.drop_last(), i, to, q);
    }
}

/// The tallies of the six kinds of progress add up to the number of targets.
pub proof fn lemma_tally_total(progress: Seq<Progress>)
    ensures
        tally(progress, Progress::Waiting) + tally(progress, Progress::Ready) + tally(
            progress,
            Progress::Running,
        ) + tally(progress, Progress::Succeeded) + tally(progress, Progress::Failed) + tally(
            progress,
            Progress::Skipped,
        ) == progress.len(),
    decreases progress.len(),
{
    if progress.len() > 0 {
        lemma_tally_total(progress.drop_last());
    }
}

pub proof fn lemma_tally_zero(progress: Seq<Progress>, q: Progress)
    ensures
        tally(progress, q) == 0 <==> forall|i: int| 0 <= i < progress.len() ==> progress[i] != q,
    decreases progress.len(),
{
    if progress.len() > 0 {
        lemma_tally_zero(progress.drop_last(), q);
        if tally(progress, q) == 0 {
            assert forall|i: int| 0 <= i < progress.len() implies progress[i] != q by {
                if i < progress.len() - 1 {
                    assert(progress.drop_last()[i] == progress[i]);
                }
            }
        } else if progress.last() != q {
            let i = choose|i: int| 0 <= i < progress.drop_last().len() && progress.drop_last()[i] == q;
            assert(progress[i] == q);
        }
    }
}

proof fn lemma_open_deps_zero(deps: Seq<usize>, progress: Seq<Progress>)
    ensures
        open_deps(deps, progress) == 0 <==> forall|k: int| 0 <= k < deps.len() ==> settled(progress[#[trigger] deps[k] as int]),
        open_deps(deps, progress) <= deps.len(),
    decreases deps.len(),
{
    if deps.len() > 0 {
        lemma_open_deps_zero(deps.drop_last(), progress);
        if open_deps(deps, progress) == 0 {
            assert forall|k: int| 0 <= k < deps.len() implies settled(progress[#[trigger] deps[k] as int]) by {
                if k < deps.len() - 1 {
                    assert(deps.drop_last()[k] == deps[k]);
                }
            }
        } else if settled(progress[deps.last() as int]) {
            let k = choose|k: int| 0 <= k < deps.drop_last().len() && !settled(progress[#[trigger] deps.drop_last()[k] as int]);
            assert(deps[k] == deps.drop_last()[k]);
        }
    }
}

/// A change that settles nothing and unsettles nothing keeps the count.
proof fn lemma_open_deps_same(deps: Seq<usize>, a: Seq<Progress>, b: Seq<Progress>)
    requires
        forall|k: int| 0 <= k < deps.len() ==> settled(a[#[trigger] deps[k] as int]) == settled(b[deps[k] as int]),
    ensures
        open_deps(deps, a) == open_deps(deps, b),
    decreases deps.len(),
{
    if deps.len() > 0 {
        assert forall|k: int| 0 <= k < deps.drop_last().len() implies settled(a[#[trigger] deps.drop_last()[k] as int]) == settled(b[deps.drop_last()[k] as int]) by {
            assert(deps[k] == deps.drop_last()[k]);
        }
        lemma_open_deps_same(deps.drop_last(), a, b);
        assert(settled(a[deps[deps.len() - 1] as int]) == settled(b[deps[deps.len() - 1] as int]));
    }
}

/// Settling one target closes one dependency of each of its users.
proof fn lemma_open_deps_settle(deps: Seq<usize>, a: Seq<Progress>, x: usize, to: Progress)
    requires
        deps.no_duplicates(),
        x < a.len(),
        forall|k: int| 0 <= k < deps.len() ==> #[trigger] deps[k] < a.len(),
        !settled(a[x as int]),
        settled(to),
    ensures
        deps.contains(x) ==> open_deps(deps, a.update(x as int, to)) + 1 == open_deps(deps, a),
        !deps.contains(x) ==> open_deps(deps, a.update(x as int, to)) == open_deps(deps, a),
    decreases deps.len(),
{
    let b = a.update(x as int, to);
    if deps.len() > 0 {
        let front = deps.drop_last();
        assert(front.no_duplicates());
        assert forall|k: int| 0 <= k < front.len() implies #[trigger] front[k] < a.len() by {
            assert(deps[k] == front[k]);
        }
        assert(deps[deps.len() - 1] < a.len());
        lemma_open_deps_settle(front, a, x, to);
        if deps.last() == x {
            assert(deps.contains(x)) by {
                assert(deps[deps.len() - 1] == x);
            }
            if front.contains(x) {
                let k = choose|k: int| 0 <= k < front.len() && front[k] == x;
                assert(deps[k] == x);
            }
        } else {
            if front.contains(x) {
                let k = choose|k: int| 0 <= k < front.len() && front[k] == x;
                assert(deps[k] == x);
            }
            if deps.contains(x) {
                let k = choose|k: int| 0 <= k < deps.len() && deps[k] == x;
                assert(front[k] == x);
            }
        }
    }
}

/// How a target that was started came out.
#[derive(Debug)]
pub enum Completion {
    /// The command ran and succeeded.
    Built { output_hash: ContentHash },
    /// A cache or an external check had the result.
    Hit { output_hash: ContentHash },
    Failed,
}

/// What to do next.
#[derive(Debug)]
pub enum Step {
    /// Start target `at`; `dep_hashes` are the output hashes of its
    /// dependencies, in their order.
    Start { at: usize, dep_hashes: Vec<ContentHash> },
    /// Target `at` is skipped because its dependency `bad` failed or was
    /// skipped.
    Skip { at: usize, bad: usize },
    /// Wait for a running target.
    Wait,
    /// Every target is settled.
    Finished,
}

/// The state of one build.
pub struct Dispatcher {
    plan: Plan,
    limit: usize,
    progress: Vec<Progress>,
    waiting: Vec<usize>,
    ready: VecDeque<usize>,
    running: usize,
    counts: TargetCounts,
    failed: Vec<usize>,
    hashes: Vec<Option<ContentHash>>,
    keys: Vec<Option<CacheKey>>,
}

/// All dependencies in `deps` succeeded.
pub open spec fn all_succeeded(deps: Seq<usize>, progress: Seq<Progress>) -> bool {
    forall|k: int| 0 <= k < deps.len() ==> progress[#[trigger] deps[k] as int] is Succeeded
}

/// Some dependency in `deps` failed or was skipped.
pub open spec fn some_broken(deps: Seq<usize>, progress: Seq<Progress>) -> bool {
    exists|k: int| 0 <= k < deps.len() && broken(progress[#[trigger] deps[k] as int])
}

/// What was started has only successful dependencies, and what was skipped has
/// a broken one.
pub open spec fn justified(deps: Seq<usize>, progress: Seq<Progress>, p: Progress) -> bool {
    match p {
        Progress::Running | Progress::Succeeded | Progress::Failed => all_succeeded(deps, progress),
        Progress::Skipped => some_broken(deps, progress),
        _ => true,
    }
}

/// The number of unsettled dependencies of `i`, and one more if `i` has not
/// been told yet of a dependency that was just settled.
spec fn expected(plan: Plan, progress: Seq<Progress>, i: int, late: Seq<usize>) -> int {
    open_deps(plan.deps@[i]@, progress) + if late.contains(i as usize) {
        1int
    } else {
        0int
    }
}

impl Dispatcher {
    pub closed spec fn plan(&self) -> Plan {
        self.plan
    }

    /// The progress of each target.
    pub closed spec fn progress(&self) -> Seq<Progress> {
        self.progress@
    }

    pub closed spec fn limit(&self) -> nat {
        self.limit as nat
    }

    /// The queue of targets that may start.
    pub closed spec fn queue(&self) -> Seq<usize> {
        self.ready@
    }

    pub closed spec fn tallies(&self) -> TargetCounts {
        self.counts
    }

    /// The targets that failed, in the order in which they did.
    pub closed spec fn failures(&self) -> Seq<usize> {
        self.failed@
    }

    /// The output hash of each target that succeeded.
    pub closed spec fn hashes(&self) -> Seq<Option<ContentHash>> {
        self.hashes@
    }

    /// The cache key of each target that was run.
    pub closed spec fn keys(&self) -> Seq<Option<CacheKey>> {
        self.keys@
    }

    /// The number of targets.
    pub open spec fn size(&self) -> nat {
        self.plan().ids@.len()
    }

    /// The queue and the counters of unsettled dependencies agree with the
    /// progress of the targets, but for the targets in `late`, which have not
    /// been told yet of a dependency that was just settled.
    spec fn linked(&self, late: Seq<usize>) -> bool {
        let n = self.plan.ids@.len();
        &&& self.plan.well_formed()
        &&& self.limit >= 1
        &&& self.progress@.len() == n
        &&& self.waiting@.len() == n
        &&& forall|i: int| 0 <= i < n ==> #[trigger] self.waiting@[i] == expected(self.plan, self.progress@, i, late)
        &&& forall|i: int| 0 <= i < n ==> ((#[trigger] self.progress@[i]) is Waiting <==> self.waiting@[i] > 0)
        &&& self.ready@.no_duplicates()
        &&& forall|i: usize| #![trigger self.ready@.contains(i)] self.ready@.contains(i) <==> i < n && self.progress@[i as int] is Ready
    }

    /// The counts and the results agree with the progress of the targets.
    spec fn counted(&self) -> bool {
        let n = self.plan.ids@.len();
        &&& self.hashes@.len() == n
        &&& self.keys@.len() == n
        &&& self.running == tally(self.progress@, Progress::Running)
        &&& self.counts.built + self.counts.cache_hit == tally(self.progress@, Progress::Succeeded)
        &&& self.counts.failed == tally(self.progress@, Progress::Failed)
        &&& self.counts.skipped == tally(self.progress@, Progress::Skipped)
        &&& self.failed@.len() == self.counts.failed
        &&& forall|i: int| 0 <= i < self.failed@.len() ==> (#[trigger] self.failed@[i]) < n && self.progress@[self.failed@[i] as int] is Failed
        &&& forall|i: int| 0 <= i < n ==> ((#[trigger] self.hashes@[i]) is Some <==> self.progress@[i] is Succeeded)
    }

    /// Each target's progress is justified by that of its dependencies.
    spec fn sound(&self) -> bool {
        forall|i: int| 0 <= i < self.progress@.len() ==> justified(self.plan.deps@[i]@, self.progress@, #[trigger] self.progress@[i])
    }

    pub closed spec fn well_formed(&self) -> bool {
        &&& self.linked(Seq::<usize>::empty())
        &&& self.counted()
        &&& self.sound()
        &&& self.running <= self.limit
    }

    /// What holds in every state of a build: a target waits as long as a
    /// dependency is unsettled; what runs or ran has only successful
    /// dependencies; what was skipped has a broken one; no more targets run
    /// than the limit allows; and the counts say how many targets succeeded,
    /// failed and were skipped.
    pub proof fn law_states(&self)
        requires
            self.well_formed(),
        ensures
            self.plan().well_formed(),
            self.progress().len() == self.size(),
            forall|i: int| 0 <= i < self.size() ==> ((#[trigger] self.progress()[i]) is Waiting <==> open_deps(self.plan().deps@[i]@, self.progress()) > 0),
            forall|i: int| 0 <= i < self.size() ==> justified(self.plan().deps@[i]@, self.progress(), #[trigger] self.progress()[i]),
            forall|i: usize| #![trigger self.queue().contains(i)] self.queue().contains(i) <==> i < self.size() && self.progress()[i as int] is Ready,
            tally(self.progress(), Progress::Running) <= self.limit(),
            self.tallies().built + self.tallies().cache_hit == tally(self.progress(), Progress::Succeeded),
            self.tallies().failed == tally(self.progress(), Progress::Failed),
            self.tallies().skipped == tally(self.progress(), Progress::Skipped),
            self.failures().len() == self.tallies().failed,
            forall|i: int| 0 <= i < self.size() ==> ((#[trigger] self.hashes()[i]) is Some <==> self.progress()[i] is Succeeded),
    {
    }
}

/// `b` is `a` with target `x` settled as `to`, and some waiting targets ready.
pub open spec fn advanced(a: Seq<Progress>, b: Seq<Progress>, x: int, to: Progress) -> bool {
    &&& a.len() == b.len()
    &&& 0 <= x < a.len()
    &&& b[x] == to
    &&& forall|i: int| 0 <= i < a.len() && i != x ==> (if (#[trigger] a[i]) is Waiting { b[i] is Waiting || b[i] is Ready } else { b[i] == a[i] })
}

/// Of `users`, in their order, those that waited before and are ready now.
pub open spec fn readied(users: Seq<usize>, a: Seq<Progress>, b: Seq<Progress>) -> Seq<usize>
    decreases users.len(),
{
    if users.len() == 0 {
        users
    } else {
        let rest = readied(users.drop_last(), a, b);
        let u = users.last();
        if a[u as int] is Waiting && b[u as int] is Ready {
            rest.push(u)
        } else {
            rest
        }
    }
}

proof fn lemma_readied_same(users: Seq<usize>, a: Seq<Progress>, b: Seq<Progress>, c: Seq<Progress>, d: Seq<Progress>)
    requires
        forall|k: int| 0 <= k < users.len() ==> (a[#[trigger] users[k] as int] is Waiting && b[users[k] as int] is Ready <==> c[users[k] as int] is Waiting && d[users[k] as int] is Ready),
    ensures
        readied(users, a, b) == readied(users, c, d),
    decreases users.len(),
{
    if users.len() > 0 {
        let front = users.drop_last();
        assert forall|k: int| 0 <= k < front.len() implies (a[#[trigger] front[k] as int] is Waiting && b[front[k] as int] is Ready <==> c[front[k] as int] is Waiting && d[front[k] as int] is Ready) by {
            assert(front[k] == users[k]);
        }
        lemma_readied_same(front, a, b, c, d);
        assert(users[users.len() - 1] == users.last());
    }
}

proof fn lemma_open_deps_full(deps: Seq<usize>, progress: Seq<Progress>)
    requires
        forall|k: int| 0 <= k < deps.len() ==> !settled(progress[#[trigger] deps[k] as int]),
    ensures
        open_deps(deps, progress) == deps.len(),
    decreases deps.len(),
{
    if deps.len() > 0 {
        assert forall|k: int| 0 <= k < deps.drop_last().len() implies !settled(progress[#[trigger] deps.drop_last()[k] as int]) by {
            assert(deps[k] == deps.drop_last()[k]);
        }
        lemma_open_deps_full(deps.drop_last(), progress);
        assert(!settled(progress[deps[deps.len() - 1] as int]));
    }
}

impl Dispatcher {
    /// The start of a build: what depends on nothing is ready, in plan order.
    pub fn new(plan: Plan, parallelism: usize) -> (r: Dispatcher)
        requires
            plan.well_formed(),
        ensures
            r.well_formed(),
            r.plan() == plan,
            r.limit() == if parallelism == 0 { 1 } else { parallelism as int },
            forall|i: int| 0 <= i < r.size() ==> #[trigger] r.progress()[i] == (if plan.deps@[i]@.len() == 0 { Progress::Ready } else { Progress::Waiting }),
            forall|a: int, b: int| 0 <= a < b < r.queue().len() ==> r.queue()[a] < r.queue()[b],
            r.tallies() == (TargetCounts { built: 0, cache_hit: 0, failed: 0, skipped: 0 }),
            forall|i: int| 0 <= i < r.size() ==> (#[trigger] r.keys()[i]) is None,
    {
        let n: usize = plan.ids.len();
        let mut progress: Vec<Progress> = Vec::new();
        let mut waiting: Vec<usize> = Vec::new();
        let mut ready: VecDeque<usize> = VecDeque::new();
        let mut hashes: Vec<Option<ContentHash>> = Vec::new();
        let mut keys: Vec<Option<CacheKey>> = Vec::new();
        let mut i: usize = 0;
        while i < n
            invariant
                i <= n,
                n == plan.ids@.len(),
                plan.well_formed(),
                progress.len() == i,
                waiting.len() == i,
                hashes.len() == i,
                keys.len() == i,
                forall|k: int| 0 <= k < i ==> #[trigger] waiting@[k] == plan.deps@[k]@.len(),
                forall|k: int| 0 <= k < i ==> #[trigger] progress@[k] == (if plan.deps@[k]@.len() == 0 { Progress::Ready } else { Progress::Waiting }),
                forall|k: int| 0 <= k < i ==> (#[trigger] hashes@[k]) is None,
                forall|k: int| 0 <= k < i ==> (#[trigger] keys@[k]) is None,
                forall|a: int, b: int| 0 <= a < b < ready@.len() ==> ready@[a] < ready@[b],
                forall|a: int| 0 <= a < ready@.len() ==> #[trigger] ready@[a] < i,
                forall|k: usize| #![trigger ready@.contains(k)] ready@.contains(k) <==> k < i && progress@[k as int] is Ready,
            decreases n - i,
        {
            let unmet: usize = plan.deps[i].len();
            let ghost ready0 = ready@;
            waiting.push(unmet);
            hashes.push(None);
            keys.push(None);
            if unmet == 0 {
                progress.push(Progress::Ready);
                ready.push_back(i);
            } else {
                progress.push(Progress::Waiting);
            }
            proof {
                assert forall|k: usize| #![trigger ready@.contains(k)] ready@.contains(k) <==> k < i + 1 && progress@[k as int] is Ready by {
                    if unmet == 0 {
                        crate::order::lemma_push_contains(ready0, i, k);
                    }
                    assert(ready0.contains(k) <==> k < i && progress@[k as int] is Ready);
                }
            }
            i = i + 1;
        }
        let limit: usize = if parallelism == 0 { 1 } else { parallelism };
        let r = Dispatcher {
            plan,
            limit,
            progress,
            waiting,
            ready,
            running: 0,
            counts: TargetCounts::default(),
            failed: Vec::new(),
            hashes,
            keys,
        };
        proof {
            assert forall|k: int| 0 <= k < n implies #[trigger] r.waiting@[k] == expected(plan, r.progress@, k, Seq::<usize>::empty()) by {
                let deps = plan.deps@[k]@;
                assert forall|m: int| 0 <= m < deps.len() implies !settled(r.progress@[#[trigger] deps[m] as int]) by {
                    assert(plan.deps@[k]@[m] < k);
                }
                lemma_open_deps_full(deps, r.progress@);
                assert(!Seq::<usize>::empty().contains(k as usize));
            }
            lemma_tally_zero(r.progress@, Progress::Running);
            lemma_tally_zero(r.progress@, Progress::Succeeded);
            lemma_tally_zero(r.progress@, Progress::Failed);
            lemma_tally_zero(r.progress@, Progress::Skipped);
            assert(r.linked(Seq::<usize>::empty()));
            assert(r.counted());
            assert(r.sound());
        }
        r
    }

    /// Settles `x` and tells its users.
    fn settle_any(&mut self, x: usize, to: Progress)
        requires
            old(self).linked(Seq::<usize>::empty()),
            forall|i: int| 0 <= i < old(self).progress@.len() && i != x ==> justified(old(self).plan.deps@[i]@, old(self).progress@, #[trigger] old(self).progress@[i]),
            x < old(self).progress@.len(),
            old(self).progress@[x as int] is Running,
            settled(to),
            justified(old(self).plan.deps@[x as int]@, old(self).progress@, to),
        ensures
            final(self).linked(Seq::<usize>::empty()),
            final(self).sound(),
            advanced(old(self).progress@, final(self).progress@, x as int, to),
            tallied(old(self).progress@, final(self).progress@, to),
            final(self).plan == old(self).plan,
            final(self).limit == old(self).limit,
            final(self).running == old(self).running,
            final(self).counts == old(self).counts,
            final(self).failed == old(self).failed,
            final(self).hashes == old(self).hashes,
            final(self).keys == old(self).keys,
            final(self).ready@ == old(self).ready@ + readied(old(self).plan.users@[x as int]@, old(self).progress@, final(self).progress@),
    {
        let ghost start = self.progress@;
        let ghost none = Seq::<usize>::empty();
        let ghost plan = self.plan;
        let ghost us = plan.users@[x as int]@;
        let n: usize = self.progress.len();
        self.progress[x] = to;
        let ghost mid = self.progress@;
        proof {
            assert(us.skip(0) == us);
            assert forall|i: int| 0 <= i < n implies #[trigger] self.waiting@[i] == expected(plan, mid, i, us.skip(0)) by {
                let deps = plan.deps@[i]@;
                assert forall|k: int| 0 <= k < deps.len() implies #[trigger] deps[k] < start.len() by {
                    assert(plan.deps@[i]@[k] < i);
                }
                lemma_open_deps_settle(deps, start, x, to);
                assert(us.contains(i as usize) <==> deps.contains(x));
                assert(!none.contains(i as usize));
                assert(self.waiting@[i] == expected(plan, start, i, none));
            }
            lemma_tally_update(start, x as int, to, Progress::Running);
            lemma_tally_update(start, x as int, to, Progress::Succeeded);
            lemma_tally_update(start, x as int, to, Progress::Failed);
            lemma_tally_update(start, x as int, to, Progress::Skipped);
            assert(self.linked(us.skip(0)));
            assert forall|i: int| 0 <= i < n implies justified(plan.deps@[i]@, mid, #[trigger] mid[i]) by {
                assert forall|m: int| 0 <= m < plan.deps@[i]@.len() implies #[trigger] plan.deps@[i]@[m] < start.len() by {}
                if i == x {
                    lemma_justified_kept(plan.deps@[i]@, start, mid, to, x as int);
                } else {
                    lemma_justified_kept(plan.deps@[i]@, start, mid, start[i], x as int);
                    assert(justified(plan.deps@[i]@, start, start[i]));
                }
            }
        }
        proof {
            assert(us.take(0) == none);
            assert forall|m: int| 0 <= m < us.len() implies start[#[trigger] us[m] as int] is Waiting by {
                let u = us[m];
                assert(us.contains(u));
                let deps = plan.deps@[u as int]@;
                assert(deps.contains(x));
                let j = choose|j: int| 0 <= j < deps.len() && deps[j] == x;
                lemma_open_deps_zero(deps, start);
                assert(!settled(start[deps[j] as int]));
                assert(!none.contains(u));
                assert(old(self).waiting@[u as int] == expected(plan, start, u as int, none));
            }
        }
        let mut k: usize = 0;
        while k < self.plan.users[x].len()
            invariant
                x < n,
                n == start.len(),
                self.plan == plan,
                plan.well_formed(),
                plan.ids@.len() == n,
                us == plan.users@[x as int]@,
                k <= us.len(),
                self.linked(us.skip(k as int)),
                self.sound(),
                settled(to),
                advanced(start, self.progress@, x as int, to),
                tallied(start, self.progress@, to),
                self.limit == old(self).limit,
                self.running == old(self).running,
                self.counts == old(self).counts,
                self.failed == old(self).failed,
                self.hashes == old(self).hashes,
                self.keys == old(self).keys,
                self.ready@ == old(self).ready@ + readied(us.take(k as int), start, self.progress@),
                forall|m: int| k <= m < us.len() ==> start[#[trigger] us[m] as int] is Waiting,
            decreases us.len() - k,
        {
            let u: usize = self.plan.users[x][k];
            let ghost p0 = self.progress@;
            let ghost ready0 = self.ready@;
            let ghost late = us.skip(k as int);
            let ghost rest = us.skip(k + 1);
            proof {
                assert(late[0] == u);
                assert(late.contains(u));
                assert(us[k as int] == u);
                assert(u < n);
                assert forall|i: usize| i != u implies #[trigger] late.contains(i) == rest.contains(i) by {
                    if late.contains(i) {
                        let m = choose|m: int| 0 <= m < late.len() && late[m] == i;
                        assert(rest[m - 1] == i);
                    }
                    if rest.contains(i) {
                        let m = choose|m: int| 0 <= m < rest.len() && rest[m] == i;
                        assert(late[m + 1] == i);
                    }
                }
                if rest.contains(u) {
                    let m = choose|m: int| 0 <= m < rest.len() && rest[m] == u;
                    assert(us[k + 1 + m] == us[k as int]);
                }
                assert(self.waiting@[u as int] == expected(plan, p0, u as int, late));
            }
            let left: usize = self.waiting[u] - 1;
            self.waiting[u] = left;
            if left == 0 {
                self.progress[u] = Progress::Ready;
                self.ready.push_back(u);
            }
            proof {
                let p1 = self.progress@;
                assert forall|i: int| 0 <= i < n implies #[trigger] self.waiting@[i] == expected(plan, p1, i, rest) by {
                    let deps = plan.deps@[i]@;
                    assert forall|m: int| 0 <= m < deps.len() implies settled(p0[#[trigger] deps[m] as int]) == settled(p1[deps[m] as int]) by {
                        assert(plan.deps@[i]@[m] < i);
                    }
                    lemma_open_deps_same(deps, p0, p1);
                    assert(expected(plan, p0, i, late) == open_deps(deps, p0) + if late.contains(i as usize) { 1int } else { 0int });
                }
                if left == 0 {
                    assert forall|i: usize| #![trigger self.ready@.contains(i)] self.ready@.contains(i) <==> i < n && p1[i as int] is Ready by {
                        crate::order::lemma_push_contains(ready0, u, i);
                        assert(ready0.contains(i) <==> i < n && p0[i as int] is Ready);
                    }
                    assert(!ready0.contains(u));
                    assert(self.ready@.no_duplicates()) by {
                        assert forall|a: int, b: int| 0 <= a < self.ready@.len() && 0 <= b < self.ready@.len() && a != b implies self.ready@[a] != self.ready@[b] by {
                            if a == ready0.len() {
                                assert(ready0.contains(ready0[b]));
                            } else if b == ready0.len() {
                                assert(ready0.contains(ready0[a]));
                            }
                        }
                    }
                    lemma_tally_update(p0, u as int, Progress::Ready, Progress::Running);
                    lemma_tally_update(p0, u as int, Progress::Ready, Progress::Succeeded);
                    lemma_tally_update(p0, u as int, Progress::Ready, Progress::Failed);
                    lemma_tally_update(p0, u as int, Progress::Ready, Progress::Skipped);
                    assert forall|i: int| 0 <= i < n implies justified(plan.deps@[i]@, p1, #[trigger] p1[i]) by {
                        lemma_justified_kept(plan.deps@[i]@, p0, p1, p0[i], u as int);
                        assert(justified(plan.deps@[i]@, p0, p0[i]));
                    }
                }
                assert(self.linked(rest));
                let seen = us.take(k as int);
                assert(us.take(k + 1).drop_last() == seen);
                assert forall|m: int| 0 <= m < seen.len() implies (start[#[trigger] seen[m] as int] is Waiting && p0[seen[m] as int] is Ready <==> start[seen[m] as int] is Waiting && p1[seen[m] as int] is Ready) by {
                    assert(seen[m] == us[m]);
                    assert(us[m] != us[k as int]);
                }
                lemma_readied_same(seen, start, p0, start, p1);
                assert(self.ready@ == old(self).ready@ + readied(us.take(k + 1), start, p1));
            }
            k = k + 1;
        }
        assert(us.skip(k as int) == none);
        assert(us.take(k as int) == us);
    }
}

/// The tallies after a running target was settled as `to`.
spec fn tallied(a: Seq<Progress>, b: Seq<Progress>, to: Progress) -> bool {
    &&& tally(b, Progress::Running) + 1 == tally(a, Progress::Running)
    &&& tally(b, Progress::Succeeded) == tally(a, Progress::Succeeded) + (if to is Succeeded { 1int } else { 0int })
    &&& tally(b, Progress::Failed) == tally(a, Progress::Failed) + (if to is Failed { 1int } else { 0int })
    &&& tally(b, Progress::Skipped) == tally(a, Progress::Skipped) + (if to is Skipped { 1int } else { 0int })
}

/// What is justified stays so when an unsettled target moves on.
proof fn lemma_justified_kept(deps: Seq<usize>, a: Seq<Progress>, b: Seq<Progress>, p: Progress, x: int)
    requires
        0 <= x < a.len(),
        !settled(a[x]),
        a.len() == b.len(),
        forall|i: int| 0 <= i < a.len() && i != x ==> a[i] == b[i],
        forall|k: int| 0 <= k < deps.len() ==> #[trigger] deps[k] < a.len(),
    ensures
        justified(deps, a, p) ==> justified(deps, b, p),
{
    if p is Skipped && some_broken(deps, a) {
        let k = choose|k: int| 0 <= k < deps.len() && broken(a[#[trigger] deps[k] as int]);
        assert(broken(b[deps[k] as int]));
    }
}

/// The output hashes of the targets in `deps`.
pub open spec fn dep_hash_views(deps: Seq<usize>, hashes: Seq<Option<ContentHash>>) -> Seq<Seq<u8>> {
    deps.map_values(|d: usize| hashes[d as int]->0@)
}

/// `k` is the first entry of `deps` that failed or was skipped.
pub open spec fn first_broken(deps: Seq<usize>, progress: Seq<Progress>, k: int) -> bool {
    &&& 0 <= k < deps.len()
    &&& broken(progress[deps[k] as int])
    &&& forall|j: int| 0 <= j < k ==> !broken(progress[#[trigger] deps[j] as int])
}

impl Dispatcher {
    /// Takes the next decision. A target leaves the queue to start, or to be
    /// skipped at once, which may make its users ready: they join the queue in
    /// their order.
    #[verifier::spinoff_prover]
    pub fn next(&mut self) -> (r: Step)
        requires
            old(self).well_formed(),
        ensures
            final(self).well_formed(),
            final(self).plan() == old(self).plan(),
            final(self).limit() == old(self).limit(),
            final(self).hashes() == old(self).hashes(),
            final(self).keys() == old(self).keys(),
            final(self).failures() == old(self).failures(),
            (r is Start || r is Skip) <==> old(self).queue().len() > 0 && tally(old(self).progress(), Progress::Running) < old(self).limit(),
            (r is Wait || r is Finished) ==> *final(self) == *old(self),
            r is Finished <==> old(self).queue().len() == 0 && tally(old(self).progress(), Progress::Running) == 0,
            r matches Step::Start { at, dep_hashes } ==> {
                &&& at == old(self).queue()[0]
                &&& at < old(self).size()
                &&& all_succeeded(old(self).plan().deps@[at as int]@, old(self).progress())
                &&& final(self).progress() == old(self).progress().update(at as int, Progress::Running)
                &&& final(self).queue() == old(self).queue().skip(1)
                &&& final(self).tallies() == old(self).tallies()
                &&& crate::model::hash_views(dep_hashes@) == dep_hash_views(old(self).plan().deps@[at as int]@, old(self).hashes())
            },
            r matches Step::Skip { at, bad } ==> {
                &&& at == old(self).queue()[0]
                &&& at < old(self).size()
                &&& exists|k: int| #[trigger] first_broken(old(self).plan().deps@[at as int]@, old(self).progress(), k) && old(self).plan().deps@[at as int]@[k] == bad
                &&& advanced(old(self).progress(), final(self).progress(), at as int, Progress::Skipped)
                &&& final(self).tallies() == (TargetCounts { skipped: (old(self).tallies().skipped + 1) as u32, ..old(self).tallies() })
                &&& final(self).queue() == old(self).queue().skip(1) + readied(old(self).plan().users@[at as int]@, old(self).progress(), final(self).progress())
            },
    {
        if self.running >= self.limit || self.ready.len() == 0 {
            if self.running == 0 {
                return Step::Finished;
            }
            return Step::Wait;
        }
        let ghost start = self.progress@;
        let ghost plan = self.plan;
        let ghost queue = self.ready@;
        let ghost none = Seq::<usize>::empty();
        let at: usize = match self.ready.pop_front() {
            Some(at) => at,
            None => {
                return Step::Wait;
            },
        };
        proof {
            assert(queue[0] == at);
            assert(queue.contains(at));
            assert(start[at as int] is Ready);
        }
        let ghost deps = plan.deps@[at as int]@;
        let mut dep_hashes: Vec<ContentHash> = Vec::new();
        let mut bad: Option<usize> = None;
        let mut k: usize = 0;
        proof {
            assert(self.waiting@[at as int] == expected(plan, start, at as int, none));
            assert(!none.contains(at));
            lemma_open_deps_zero(deps, start);
        }
        while k < self.plan.deps[at].len() && bad.is_none()
            invariant
                self.plan == plan,
                plan.well_formed(),
                at < plan.ids@.len(),
                deps == plan.deps@[at as int]@,
                k <= deps.len(),
                self.progress@ == start,
                start.len() == plan.ids@.len(),
                self.hashes@ == old(self).hashes@,
                self.hashes@.len() == plan.ids@.len(),
                forall|i: int| 0 <= i < plan.ids@.len() ==> ((#[trigger] self.hashes@[i]) is Some <==> start[i] is Succeeded),
                forall|j: int| 0 <= j < deps.len() ==> settled(start[#[trigger] deps[j] as int]),
                bad is None ==> dep_hashes.len() == k,
                bad is None ==> forall|j: int| 0 <= j < k ==> start[#[trigger] deps[j] as int] is Succeeded,
                bad is None ==> forall|j: int| 0 <= j < k ==> (#[trigger] dep_hashes@[j])@ == self.hashes@[deps[j] as int]->0@,
                bad matches Some(b) ==> k > 0 && first_broken(deps, start, k - 1) && deps[k - 1] == b,
            decreases deps.len() - k,
        {
            let d: usize = self.plan.deps[at][k];
            assert(plan.deps@[at as int]@[k as int] < at);
            match self.hashes[d] {
                Some(h) => {
                    dep_hashes.push(h);
                },
                None => {
                    bad = Some(d);
                },
            }
            k = k + 1;
        }
        self.progress[at] = Progress::Running;
        self.running = self.running + 1;
        proof {
            let mid = self.progress@;
            assert forall|i: int| 0 <= i < start.len() implies #[trigger] self.waiting@[i] == expected(plan, mid, i, none) by {
                let ds = plan.deps@[i]@;
                assert forall|m: int| 0 <= m < ds.len() implies settled(start[#[trigger] ds[m] as int]) == settled(mid[ds[m] as int]) by {
                    assert(plan.deps@[i]@[m] < i);
                }
                lemma_open_deps_same(ds, start, mid);
                assert(expected(plan, start, i, none) == open_deps(ds, start) + if none.contains(i as usize) { 1int } else { 0int });
            }
            assert(self.ready@ == queue.skip(1));
            assert forall|i: usize| #![trigger self.ready@.contains(i)] self.ready@.contains(i) <==> i < start.len() && mid[i as int] is Ready by {
                assert(queue.contains(i) <==> i < start.len() && start[i as int] is Ready);
                if self.ready@.contains(i) {
                    let m = choose|m: int| 0 <= m < self.ready@.len() && self.ready@[m] == i;
                    assert(queue[m + 1] == i);
                    assert(queue[m + 1] != queue[0]);
                }
                if queue.contains(i) && i != at {
                    let m = choose|m: int| 0 <= m < queue.len() && queue[m] == i;
                    assert(self.ready@[m - 1] == i);
                }
            }
            lemma_tally_update(start, at as int, Progress::Running, Progress::Running);
            lemma_tally_update(start, at as int, Progress::Running, Progress::Succeeded);
            lemma_tally_update(start, at as int, Progress::Running, Progress::Failed);
            lemma_tally_update(start, at as int, Progress::Running, Progress::Skipped);
            assert(self.linked(none));
            assert(self.counted());
            assert forall|i: int| 0 <= i < start.len() && i != at implies justified(plan.deps@[i]@, mid, #[trigger] mid[i]) by {
                assert forall|m: int| 0 <= m < plan.deps@[i]@.len() implies #[trigger] plan.deps@[i]@[m] < start.len() by {}
                lemma_justified_kept(plan.deps@[i]@, start, mid, start[i], at as int);
                assert(justified(plan.deps@[i]@, start, start[i]));
            }
        }
        match bad {
            None => {
                proof {
                    assert(all_succeeded(deps, start));
                    assert forall|m: int| 0 <= m < deps.len() implies #[trigger] deps[m] < start.len() by {}
                    lemma_justified_kept(deps, start, self.progress@, Progress::Running, at as int);
                    assert(self.sound());
                    assert(crate::model::hash_views(dep_hashes@) == dep_hash_views(deps, old(self).hashes@));
                }
                Step::Start { at, dep_hashes }
            },
            Some(b) => {
                proof {
                    let mid = self.progress@;
                    assert(first_broken(deps, start, k - 1));
                    assert(some_broken(deps, start));
                    assert forall|m: int| 0 <= m < deps.len() implies #[trigger] deps[m] < start.len() by {}
                    lemma_justified_kept(deps, start, mid, Progress::Skipped, at as int);
                    lemma_tally_total(mid);
                    assert(self.counts.skipped < u32::MAX);
                }
                let ghost mid = self.progress@;
                self.settle_skipped(at);
                proof {
                    assert forall|i: int| 0 <= i < start.len() && i != at implies (if (#[trigger] start[i]) is Waiting { self.progress@[i] is Waiting || self.progress@[i] is Ready } else { self.progress@[i] == start[i] }) by {
                        assert(mid[i] == start[i]);
                    }
                    assert(advanced(start, self.progress@, at as int, Progress::Skipped));
                    let kk = k - 1;
                    assert(first_broken(old(self).plan().deps@[at as int]@, old(self).progress(), kk));
                    assert(old(self).plan().deps@[at as int]@[kk] == b);
                    assert(exists|j: int| #[trigger] first_broken(old(self).plan().deps@[at as int]@, old(self).progress(), j) && old(self).plan().deps@[at as int]@[j] == b);
                    assert(at == old(self).queue()[0]);
                    assert(at < old(self).size());
                    assert(advanced(old(self).progress(), self.progress(), at as int, Progress::Skipped));
                    assert(self.tallies() == (TargetCounts { skipped: (old(self).tallies().skipped + 1) as u32, ..old(self).tallies() }));
                    let us = plan.users@[at as int]@;
                    assert forall|m: int| 0 <= m < us.len() implies (mid[#[trigger] us[m] as int] is Waiting && self.progress@[us[m] as int] is Ready <==> start[us[m] as int] is Waiting && self.progress@[us[m] as int] is Ready) by {
                        assert(plan.users@[at as int]@[m] < start.len());
                    }
                    lemma_readied_same(us, mid, self.progress@, start, self.progress@);
                    assert(self.queue() == old(self).queue().skip(1) + readied(old(self).plan().users@[at as int]@, old(self).progress(), self.progress()));
                }
                Step::Skip { at, bad: b }
            },
        }
    }

    /// Settles a target in hand as skipped.
    fn settle_skipped(&mut self, at: usize)
        requires
            old(self).linked(Seq::<usize>::empty()),
            old(self).counted(),
            at < old(self).progress@.len(),
            old(self).progress@[at as int] is Running,
            old(self).running <= old(self).limit,
            old(self).counts.skipped < u32::MAX,
            some_broken(old(self).plan.deps@[at as int]@, old(self).progress@),
            forall|i: int| 0 <= i < old(self).progress@.len() && i != at ==> justified(old(self).plan.deps@[i]@, old(self).progress@, #[trigger] old(self).progress@[i]),
        ensures
            final(self).well_formed(),
            final(self).plan == old(self).plan,
            final(self).limit == old(self).limit,
            final(self).hashes == old(self).hashes,
            final(self).keys == old(self).keys,
            final(self).failed == old(self).failed,
            advanced(old(self).progress@, final(self).progress@, at as int, Progress::Skipped),
            final(self).counts == (TargetCounts { skipped: (old(self).counts.skipped + 1) as u32, ..old(self).counts }),
            final(self).ready@ == old(self).ready@ + readied(old(self).plan.users@[at as int]@, old(self).progress@, final(self).progress@),
    {
        let ghost start = self.progress@;
        self.settle_any(at, Progress::Skipped);
        self.running = self.running - 1;
        self.counts = TargetCounts { skipped: self.counts.skipped + 1, ..self.counts };
        proof {
            assert forall|i: int| 0 <= i < self.failed@.len() implies (#[trigger] self.failed@[i]) < self.plan.ids@.len() && self.progress@[self.failed@[i] as int] is Failed by {
                assert(start[self.failed@[i] as int] is Failed);
            }
            assert forall|i: int| 0 <= i < self.plan.ids@.len() implies ((#[trigger] self.hashes@[i]) is Some <==> self.progress@[i] is Succeeded) by {
                assert(start[i] is Succeeded || !(start[i] is Succeeded));
            }
            assert(self.counted());
        }
    }
}

/// The progress that a completion leads to.
pub open spec fn outcome(c: Completion) -> Progress {
    match c {
        Completion::Built { .. } | Completion::Hit { .. } => Progress::Succeeded,
        Completion::Failed => Progress::Failed,
    }
}

/// The counts with one more target of the given outcome.
pub open spec fn counted_in(counts: TargetCounts, c: Completion) -> TargetCounts {
    match c {
        Completion::Built { .. } => TargetCounts { built: (counts.built + 1) as u32, ..counts },
        Completion::Hit { .. } => TargetCounts { cache_hit: (counts.cache_hit + 1) as u32, ..counts },
        Completion::Failed => TargetCounts { failed: (counts.failed + 1) as u32, ..counts },
    }
}

/// Where nothing runs and nothing is ready, every target is settled.
proof fn lemma_all_settled(plan: Plan, progress: Seq<Progress>, i: int)
    requires
        plan.well_formed(),
        progress.len() == plan.ids@.len(),
        forall|p: int| 0 <= p < progress.len() ==> ((#[trigger] progress[p]) is Waiting <==> open_deps(plan.deps@[p]@, progress) > 0),
        forall|p: int| 0 <= p < progress.len() ==> !((#[trigger] progress[p]) is Running) && !(progress[p] is Ready),
        0 <= i < progress.len(),
    ensures
        settled(progress[i]),
    decreases i,
{
    let deps = plan.deps@[i]@;
    assert forall|k: int| 0 <= k < deps.len() implies settled(progress[#[trigger] deps[k] as int]) by {
        assert(plan.deps@[i]@[k] < i);
        lemma_all_settled(plan, progress, deps[k] as int);
    }
    lemma_open_deps_zero(deps, progress);
    assert(progress[i] is Waiting <==> open_deps(deps, progress) > 0);
}

impl Dispatcher {
    /// Takes in that a running target ended. The users that this makes ready
    /// join the queue in their order.
    pub fn complete(&mut self, at: usize, key: CacheKey, c: Completion)
        requires
            old(self).well_formed(),
            at < old(self).size(),
            old(self).progress()[at as int] is Running,
        ensures
            final(self).well_formed(),
            final(self).plan() == old(self).plan(),
            final(self).limit() == old(self).limit(),
            advanced(old(self).progress(), final(self).progress(), at as int, outcome(c)),
            final(self).tallies() == counted_in(old(self).tallies(), c),
            final(self).failures() == (if c is Failed { old(self).failures().push(at) } else { old(self).failures() }),
            final(self).keys() == old(self).keys().update(at as int, Some(key)),
            final(self).hashes() == (match c {
                Completion::Built { output_hash } | Completion::Hit { output_hash } => old(self).hashes().update(at as int, Some(output_hash)),
                Completion::Failed => old(self).hashes(),
            }),
            final(self).queue() == old(self).queue() + readied(old(self).plan().users@[at as int]@, old(self).progress(), final(self).progress()),
    {
        let ghost start = self.progress@;
        proof {
            lemma_tally_total(start);
            assert(justified(self.plan.deps@[at as int]@, start, start[at as int]));
        }
        let ok: bool = match c {
            Completion::Failed => false,
            _ => true,
        };
        self.settle_any(at, if ok { Progress::Succeeded } else { Progress::Failed });
        self.running = self.running - 1;
        self.keys[at] = Some(key);
        match c {
            Completion::Built { output_hash } => {
                self.counts = TargetCounts { built: self.counts.built + 1, ..self.counts };
                self.hashes[at] = Some(output_hash);
            },
            Completion::Hit { output_hash } => {
                self.counts = TargetCounts { cache_hit: self.counts.cache_hit + 1, ..self.counts };
                self.hashes[at] = Some(output_hash);
            },
            Completion::Failed => {
                self.counts = TargetCounts { failed: self.counts.failed + 1, ..self.counts };
                self.failed.push(at);
            },
        }
        proof {
            let n = self.plan.ids@.len();
            assert forall|i: int| 0 <= i < self.failed@.len() implies (#[trigger] self.failed@[i]) < n && self.progress@[self.failed@[i] as int] is Failed by {
                if i < old(self).failed@.len() {
                    assert(self.failed@[i] == old(self).failed@[i]);
                    assert(start[self.failed@[i] as int] is Failed);
                }
            }
            assert forall|i: int| 0 <= i < n implies ((#[trigger] self.hashes@[i]) is Some <==> self.progress@[i] is Succeeded) by {
                assert(old(self).hashes@[i] is Some <==> start[i] is Succeeded);
            }
            assert(self.counted());
        }
    }

    /// A finished build has settled every target: each succeeded, failed or
    /// was skipped, a target was skipped exactly if a dependency of it failed
    /// or was skipped, and the counts add up to the number of targets.
    pub proof fn law_finished(&self)
        requires
            self.well_formed(),
            self.queue().len() == 0,
            tally(self.progress(), Progress::Running) == 0,
        ensures
            forall|i: int| 0 <= i < self.size() ==> settled(#[trigger] self.progress()[i]),
            forall|i: int| 0 <= i < self.size() ==> ((#[trigger] self.progress()[i]) is Skipped <==> some_broken(self.plan().deps@[i]@, self.progress())),
            self.tallies().built + self.tallies().cache_hit + self.tallies().failed + self.tallies().skipped == self.size(),
    {
        let none = Seq::<usize>::empty();
        lemma_tally_zero(self.progress@, Progress::Running);
        assert forall|p: int| 0 <= p < self.progress@.len() implies !((#[trigger] self.progress@[p]) is Running) && !(self.progress@[p] is Ready) by {
            assert(!self.ready@.contains(p as usize));
        }
        assert forall|p: int| 0 <= p < self.progress@.len() implies ((#[trigger] self.progress@[p]) is Waiting <==> open_deps(self.plan.deps@[p]@, self.progress@) > 0) by {
            assert(self.waiting@[p] == expected(self.plan, self.progress@, p, none));
            assert(!none.contains(p as usize));
        }
        assert forall|i: int| 0 <= i < self.size() implies settled(#[trigger] self.progress()[i]) by {
            lemma_all_settled(self.plan, self.progress@, i);
        }
        assert forall|i: int| 0 <= i < self.size() implies ((#[trigger] self.progress()[i]) is Skipped <==> some_broken(self.plan().deps@[i]@, self.progress())) by {
            assert(justified(self.plan.deps@[i]@, self.progress@, self.progress@[i]));
            assert(settled(self.progress()[i]));
            if some_broken(self.plan.deps@[i]@, self.progress@) {
                let k = choose|k: int| 0 <= k < self.plan.deps@[i]@.len() && broken(self.progress@[#[trigger] self.plan.deps@[i]@[k] as int]);
            }
        }
        lemma_tally_zero(self.progress@, Progress::Waiting);
        lemma_tally_zero(self.progress@, Progress::Ready);
        assert forall|p: int| 0 <= p < self.progress@.len() implies !((#[trigger] self.progress@[p]) is Waiting) by {
            assert(settled(self.progress()[p]));
        }
        lemma_tally_total(self.progress@);
    }

    /// As many targets run as before: a target that was ready was skipped.
    pub proof fn lemma_running_kept(&self, before: Dispatcher, at: int)
        requires
            advanced(before.progress(), self.progress(), at, Progress::Skipped),
            before.progress()[at] is Ready,
        ensures
            tally(self.progress(), Progress::Running) == tally(before.progress(), Progress::Running),
    {
        lemma_running(before.progress(), self.progress(), at);
    }

    /// One target fewer runs than before: a target that ran was settled.
    pub proof fn lemma_one_less(&self, before: Dispatcher, at: int)
        requires
            advanced(before.progress(), self.progress(), at, self.progress()[at]),
            before.progress()[at] is Running,
            settled(self.progress()[at]),
        ensures
            tally(self.progress(), Progress::Running) == tally(before.progress(), Progress::Running) - 1,
    {
        lemma_running(before.progress(), self.progress(), at);
    }

    /// A build without failures skips nothing.
    pub proof fn law_no_failure_no_skip(&self, i: int)
        requires
            self.well_formed(),
            self.tallies().failed == 0,
            0 <= i < self.size(),
        ensures
            !(self.progress()[i] is Skipped),
        decreases i,
    {
        lemma_tally_zero(self.progress@, Progress::Failed);
        if self.progress@[i] is Skipped {
            let deps = self.plan.deps@[i]@;
            assert(justified(deps, self.progress@, self.progress@[i]));
            let k = choose|k: int| 0 <= k < deps.len() && broken(self.progress@[#[trigger] deps[k] as int]);
            assert(self.plan.deps@[i]@[k] < i);
            self.law_no_failure_no_skip(deps[k] as int);
        }
    }

    pub fn counts(&self) -> (r: TargetCounts)
        ensures
            r == self.tallies(),
    {
        self.counts
    }

    /// Whether no target failed.
    pub fn ok(&self) -> (r: bool)
        ensures
            r == (self.tallies().failed == 0),
    {
        self.counts.failed == 0
    }

    /// The label of target `at`.
    pub fn id(&self, at: usize) -> (r: &TargetId)
        requires
            at < self.size(),
        ensures
            *r == self.plan().ids@[at as int],
    {
        &self.plan.ids[at]
    }

    /// The labels of the targets that failed, in the order in which they did.
    pub fn failed_targets(&self) -> (r: Vec<TargetId>)
        requires
            self.well_formed(),
        ensures
            r.len() == self.failures().len(),
            forall|k: int| 0 <= k < r.len() ==> #[trigger] r@[k] == self.plan().ids@[self.failures()[k] as int],
    {
        let mut out: Vec<TargetId> = Vec::new();
        let mut k: usize = 0;
        while k < self.failed.len()
            invariant
                k <= self.failed.len(),
                self.well_formed(),
                out.len() == k,
                forall|j: int| 0 <= j < k ==> #[trigger] out@[j] == self.plan.ids@[self.failed@[j] as int],
            decreases self.failed.len() - k,
        {
            assert(self.failed@[k as int] < self.plan.ids@.len());
            out.push(self.plan.ids[self.failed[k]].clone());
            k = k + 1;
        }
        out
    }

    /// The cache key of target `at`, once it was run.
    pub fn cache_key(&self, at: usize) -> (r: Option<CacheKey>)
        requires
            self.well_formed(),
            at < self.size(),
        ensures
            r == self.keys()[at as int],
    {
        self.keys[at]
    }
}

/// Why a target is skipped.
pub open spec fn skip_text(bad: Seq<char>) -> Seq<char> {
    "dep '"@ + bad + "' failed"@
}

/// The reason given for skipping a target whose dependency `bad` failed.
pub fn skip_reason(bad: &TargetId) -> (r: String)
    ensures
        r@ == skip_text(bad@),
{
    crate::text::cat3("dep '", bad.as_str(), "' failed")
}

/// What joins the queue are the users that waited and wait no more, in their
/// order.
pub proof fn law_readied(users: Seq<usize>, a: Seq<Progress>, b: Seq<Progress>)
    ensures
        readied(users, a, b) == users.filter(|u: usize| a[u as int] is Waiting && b[u as int] is Ready),
    decreases users.len(),
{
    reveal(Seq::filter);
    if users.len() > 0 {
        law_readied(users.drop_last(), a, b);
    }
}

/// A completion settles its target and counts it once: a failure as failed, a
/// build as built, a hit as a hit.
pub proof fn law_completion_counted(counts: TargetCounts, c: Completion)
    requires
        counts.built < u32::MAX,
        counts.cache_hit < u32::MAX,
        counts.failed < u32::MAX,
    ensures
        settled(outcome(c)),
        broken(outcome(c)) <==> c is Failed,
        ({
            let after = counted_in(counts, c);
            &&& after.built - counts.built == (if c is Built { 1int } else { 0 })
            &&& after.cache_hit - counts.cache_hit == (if c is Hit { 1int } else { 0 })
            &&& after.failed - counts.failed == (if c is Failed { 1int } else { 0 })
            &&& after.skipped == counts.skipped
        }),
{
}

/// A target that starts is handed the hash of each of its dependencies, in their
/// order.
pub proof fn law_dep_hashes(deps: Seq<usize>, hashes: Seq<Option<ContentHash>>, k: int)
    requires
        0 <= k < deps.len(),
        0 <= deps[k] < hashes.len(),
        hashes[deps[k] as int] is Some,
    ensures
        dep_hash_views(deps, hashes).len() == deps.len(),
        Some(dep_hash_views(deps, hashes)[k]) == (match hashes[deps[k] as int] {
            Some(h) => Some(h@),
            None => None,
        }),
{
}

/// The dependency that a skipped target is skipped for failed or was skipped, and
/// none before it did or was.
pub proof fn law_skip_reason(deps: Seq<usize>, progress: Seq<Progress>, k: int, j: int)
    requires
        first_broken(deps, progress, k),
        0 <= j < deps.len(),
        progress[deps[j] as int] is Failed || progress[deps[j] as int] is Skipped,
    ensures
        k <= j,
        progress[deps[k] as int] is Failed || progress[deps[k] as int] is Skipped,
{
    if j < k {
        assert(!broken(progress[deps[j] as int]));
    }
}

/// The tally of a state counts its targets: a change of one target moves one from
/// the tally of what it was to that of what it is.
pub proof fn law_tally_moves(progress: Seq<Progress>, x: int, q: Progress, to: Progress)
    requires
        0 <= x < progress.len(),
        progress[x] != to,
    ensures
        tally(progress.update(x, to), q) == tally(progress, q) + (if q == to {
            1int
        } else {
            0
        }) - (if q == progress[x] {
            1int
        } else {
            0
        }),
    decreases progress.len(),
{
    let u = progress.update(x, to);
    if x == progress.len() - 1 {
        assert(u.drop_last() == progress.drop_last());
    } else {
        assert(u.drop_last() == progress.drop_last().update(x, to));
        law_tally_moves(progress.drop_last(), x, q, to);
    }
}

/// When a target is settled, no other target that had started or ended is touched,
/// and one that waited at most becomes ready.
pub proof fn law_others_untouched(a: Seq<Progress>, b: Seq<Progress>, x: int, to: Progress, i: int)
    requires
        advanced(a, b, x, to),
        0 <= i < a.len(),
        i != x,
    ensures
        b.len() == a.len(),
        b[x] == to,
        !(a[i] is Waiting) ==> b[i] == a[i],
        settled(a[i]) <==> settled(b[i]),
        b[i] is Running <==> a[i] is Running,
{
}

} // verus!
