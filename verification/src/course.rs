//! The course of one build, from the event that opens it to the event that
//! closes it.

use crate::dispatch::{
    advanced, all_succeeded, counted_in, dep_hash_views, first_broken, outcome, readied, settled, skip_text, tally, Completion, Dispatcher,
    Plan, Progress, Step,
};
use crate::events::{Event, TargetCounts};
use crate::executor::skipped_event;
use crate::model::{copy_ids, hash_views, id_texts, ids_of, CacheKey, ContentHash, TargetId};
use crate::text::{owned, strs};
use vstd::prelude::*;
use vstd::string::*;

verus! {

/// What became known of a build, in the order in which it did.
pub enum Note {
    /// The build began.
    Opened,
    /// A target was started.
    Began(usize),
    /// A target was settled.
    Ended(usize, Progress),
    /// The build is over.
    Closed { ok: bool, counts: TargetCounts },
}

/// The number of targets that were started and have not ended.
pub open spec fn in_flight(notes: Seq<Note>) -> int
    decreases notes.len(),
{
    if notes.len() == 0 {
        0
    } else {
        in_flight(notes.drop_last()) + match notes.last() {
            Note::Began(_) => 1int,
            Note::Ended(_, p) => if p is Skipped {
                0int
            } else {
                -1int
            },
            _ => 0int,
        }
    }
}

/// Among the first `n` notes, target `t` ended successfully.
pub open spec fn succeeded_by(notes: Seq<Note>, n: int, t: usize) -> bool {
    exists|j: int| 0 <= j < n && #[trigger] notes[j] == Note::Ended(t, Progress::Succeeded)
}

/// Note `j` says that target `t` ended.
pub open spec fn ended_at(notes: Seq<Note>, j: int, t: usize) -> bool {
    0 <= j < notes.len() && (notes[j] matches Note::Ended(u, _) && u == t)
}

/// Some note says that target `t` ended.
pub open spec fn has_ended(notes: Seq<Note>, t: usize) -> bool {
    exists|j: int| #[trigger] ended_at(notes, j, t)
}

/// The build is opened first, and once; it is closed last, and once; a target is
/// started once at most, and only after all its dependencies ended successfully;
/// it ends once at most; and at no point are more targets in flight than the
/// limit allows.
pub open spec fn orderly(notes: Seq<Note>, plan: Plan, limit: nat) -> bool {
    &&& notes.len() > 0
    &&& notes[0] is Opened
    &&& forall|i: int| 0 < i < notes.len() ==> !((#[trigger] notes[i]) is Opened)
    &&& forall|i: int| 0 <= i < notes.len() - 1 ==> !((#[trigger] notes[i]) is Closed)
    &&& forall|i: int| 0 <= i < notes.len() ==> ((#[trigger] notes[i]) matches Note::Began(t) ==> t < plan.deps@.len() && forall|k: int|
        0 <= k < plan.deps@[t as int]@.len() ==> succeeded_by(notes, i, #[trigger] plan.deps@[t as int]@[k]))
    &&& forall|i: int, j: int| 0 <= i < j < notes.len() && (#[trigger] notes[i]) is Began ==> notes[i] != #[trigger] notes[j]
    &&& forall|i: int, j: int, t: usize| #[trigger] ended_at(notes, i, t) && #[trigger] ended_at(notes, j, t) ==> i == j
    &&& forall|n: int| 0 <= n <= notes.len() ==> in_flight(#[trigger] notes.take(n)) <= limit
}

/// The notes say of exactly the settled targets that they ended, and how.
spec fn ends_match(notes: Seq<Note>, progress: Seq<Progress>) -> bool {
    &&& forall|j: int, t: usize| #[trigger] ended_at(notes, j, t) ==> t < progress.len() && settled(progress[t as int]) && notes[j] == Note::Ended(t, progress[t as int])
    &&& forall|t: int| 0 <= t < progress.len() && settled(#[trigger] progress[t]) ==> has_ended(notes, t as usize)
}

proof fn lemma_ends_match(notes: Seq<Note>, a: Seq<Progress>, b: Seq<Progress>, at: usize, to: Progress)
    requires
        ends_match(notes, a),
        a.len() <= usize::MAX,
        at < a.len(),
        !settled(a[at as int]),
        settled(to),
        advanced(a, b, at as int, to),
    ensures
        ends_match(notes.push(Note::Ended(at, to)), b),
{
    let out = notes.push(Note::Ended(at, to));
    assert forall|j: int, t: usize| #[trigger] ended_at(out, j, t) implies t < b.len() && settled(b[t as int]) && out[j] == Note::Ended(t, b[t as int]) by {
        if j < notes.len() {
            assert(out[j] == notes[j]);
            assert(ended_at(notes, j, t));
            assert(a[t as int] == b[t as int]);
        }
    }
    assert forall|t: int| 0 <= t < b.len() && settled(#[trigger] b[t]) implies has_ended(out, t as usize) by {
        if t == at {
            assert(ended_at(out, notes.len() as int, at));
        } else {
            assert(settled(a[t]));
            assert(has_ended(notes, t as usize));
            let j = choose|j: int| #[trigger] ended_at(notes, j, t as usize);
            assert(out[j] == notes[j]);
            assert(ended_at(out, j, t as usize));
        }
    }
}

/// What to do next in a build.
#[derive(Debug)]
pub enum BuildStep {
    /// Start target `at`; `dep_hashes` are the output hashes of its
    /// dependencies, in their order.
    Start { at: usize, dep_hashes: Vec<ContentHash> },
    /// A target was skipped: report it.
    Report(Event),
    /// Wait for a running target.
    Wait,
    /// Every target is settled: close the build.
    Finished,
}

/// One build.
pub struct Build {
    id: String,
    dispatcher: Dispatcher,
    over: bool,
    notes: Ghost<Seq<Note>>,
}

/// The event for target `at`, skipped because of the target `bad`.
pub open spec fn reports_skip(e: Event, build: Seq<char>, id: TargetId, bad: TargetId) -> bool {
    e matches Event::TargetFinished { build: b, id: i, result, duration_ms, exit_code, outputs, error } && b@ == build && i@ == id@ && result is Skipped
        && duration_ms == 0 && exit_code is None && outputs@.len() == 0 && error is Some && error->0@ == skip_text(bad@)
}

impl Build {
    pub closed spec fn id(&self) -> Seq<char> {
        self.id@
    }

    /// The dispatcher that takes the decisions.
    pub closed spec fn inner(&self) -> Dispatcher {
        self.dispatcher
    }

    /// The event that closes the build was handed out.
    pub closed spec fn over(&self) -> bool {
        self.over
    }

    /// What became known so far.
    pub closed spec fn notes(&self) -> Seq<Note> {
        self.notes@
    }

    /// Nothing runs and nothing is ready.
    pub open spec fn done(&self) -> bool {
        self.inner().queue().len() == 0 && tally(self.inner().progress(), Progress::Running) == 0
    }

    /// The notes agree with the progress of the targets.
    spec fn linked(&self) -> bool {
        let progress = self.dispatcher.progress();
        &&& in_flight(self.notes@) == tally(progress, Progress::Running)
        &&& forall|t: int| 0 <= t < progress.len() && (#[trigger] progress[t]) is Succeeded ==> succeeded_by(self.notes@, self.notes@.len() as int, t as usize)
        &&& forall|i: int| 0 <= i < self.notes@.len() ==> ((#[trigger] self.notes@[i]) matches Note::Began(t) ==> t < progress.len() && (progress[t as int] is Running
            || progress[t as int] is Succeeded || progress[t as int] is Failed))
        &&& ends_match(self.notes@, progress)
    }

    pub closed spec fn well_formed(&self) -> bool {
        &&& self.dispatcher.well_formed()
        &&& orderly(self.notes@, self.dispatcher.plan(), self.dispatcher.limit())
        &&& self.linked()
        &&& self.over <==> self.notes@.last() is Closed
        &&& self.over ==> self.notes@.last() == (Note::Closed { ok: self.dispatcher.tallies().failed == 0, counts: self.dispatcher.tallies() })
        &&& self.over ==> self.done()
    }

    /// In every state of a build its notes are in order. Once it is over, the
    /// last of them says whether no target failed and how the targets ended,
    /// and as many targets are listed as failed as were counted.
    pub proof fn law_order(&self)
        requires
            self.well_formed(),
        ensures
            self.inner().well_formed(),
            orderly(self.notes(), self.inner().plan(), self.inner().limit()),
            self.over() <==> self.notes().last() is Closed,
            self.over() ==> self.notes().last() == (Note::Closed { ok: self.inner().tallies().failed == 0, counts: self.inner().tallies() }),
            in_flight(self.notes()) == tally(self.inner().progress(), Progress::Running),
            self.inner().failures().len() == self.inner().tallies().failed,
    {
        self.dispatcher.law_states();
    }

    /// In a build that is over every planned target ended, once, as its progress
    /// says, and no other target did.
    pub proof fn law_each_ends_once(&self)
        requires
            self.well_formed(),
            self.over(),
        ensures
            forall|t: usize| t < self.inner().size() ==> #[trigger] has_ended(self.notes(), t),
            forall|i: int, j: int, t: usize| #[trigger] ended_at(self.notes(), i, t) && #[trigger] ended_at(self.notes(), j, t) ==> i == j,
            forall|j: int, t: usize| #[trigger] ended_at(self.notes(), j, t) ==> t < self.inner().size() && self.notes()[j] == Note::Ended(t, self.inner().progress()[t as int]),
    {
        self.dispatcher.law_states();
        self.dispatcher.law_finished();
        assert forall|t: usize| t < self.inner().size() implies #[trigger] has_ended(self.notes(), t) by {
            assert(settled(self.dispatcher.progress()[t as int]));
        }
    }

    /// Opens a build of the planned targets, with the event that says so.
    pub fn open(id: &str, selection: &Vec<TargetId>, plan: Plan, parallelism: usize) -> (r: (Build, Event))
        requires
            plan.well_formed(),
        ensures
            r.0.well_formed(),
            !r.0.over(),
            r.0.id() == id@,
            r.0.notes() == seq![Note::Opened],
            r.0.inner().plan() == plan,
            r.0.inner().limit() == (if parallelism == 0 { 1 } else { parallelism as int }),
            forall|i: int| 0 <= i < plan.ids@.len() ==> #[trigger] r.0.inner().progress()[i] == (if plan.deps@[i]@.len() == 0 { Progress::Ready } else { Progress::Waiting }),
            r.0.inner().tallies() == (TargetCounts { built: 0, cache_hit: 0, failed: 0, skipped: 0 }),
            r.1 matches Event::BuildStarted { id: i, selection: s, target_ids, parallelism: p } && i@ == id@ && strs(s@) == ids_of(selection@) && ids_of(target_ids@) == ids_of(plan.ids@)
                && p == r.0.inner().limit(),
    {
        let target_ids = copy_ids(&plan.ids);
        let texts = id_texts(selection);
        let limit: usize = if parallelism == 0 {
            1
        } else {
            parallelism
        };
        let event = Event::BuildStarted { id: owned(id), selection: texts, target_ids, parallelism: limit };
        let dispatcher = Dispatcher::new(plan, parallelism);
        let ghost notes = seq![Note::Opened];
        let r = Build { id: owned(id), dispatcher, over: false, notes: Ghost(notes) };
        proof {
            r.dispatcher.law_states();
            let progress = r.dispatcher.progress();
            crate::dispatch::lemma_tally_zero(progress, Progress::Running);
            assert forall|n: int| 0 <= n <= notes.len() implies in_flight(#[trigger] notes.take(n)) <= r.dispatcher.limit() by {
                assert(in_flight(Seq::<Note>::empty()) == 0);
                if n == 1 {
                    assert(notes.take(1).drop_last() == Seq::<Note>::empty());
                    assert(notes.take(1).last() is Opened);
                }
            }
            assert(notes.drop_last() == Seq::<Note>::empty());
            assert(r.linked());
        }
        (r, event)
    }

    /// Notes `n`, which is neither the opening nor a start.
    proof fn lemma_noted(notes: Seq<Note>, n: Note, plan: Plan, limit: nat)
        requires
            orderly(notes, plan, limit),
            !(notes.last() is Closed),
            !(n is Opened),
            in_flight(notes.push(n)) <= limit,
            n matches Note::Began(t) ==> {
                &&& t < plan.deps@.len()
                &&& forall|k: int| 0 <= k < plan.deps@[t as int]@.len() ==> succeeded_by(notes, notes.len() as int, #[trigger] plan.deps@[t as int]@[k])
                &&& forall|i: int| 0 <= i < notes.len() ==> #[trigger] notes[i] != n
            },
            n matches Note::Ended(t, _) ==> !has_ended(notes, t),
        ensures
            orderly(notes.push(n), plan, limit),
            forall|j: int, t: usize| #[trigger] ended_at(notes.push(n), j, t) ==> ended_at(notes, j, t) || j == notes.len() && (n matches Note::Ended(u, _) && u == t),
            forall|t: usize| #[trigger] has_ended(notes, t) ==> has_ended(notes.push(n), t),
            forall|t: usize| #[trigger] succeeded_by(notes, notes.len() as int, t) ==> succeeded_by(notes.push(n), notes.len() as int + 1, t),
    {
        let out = notes.push(n);
        assert forall|i: int| 0 <= i < out.len() implies ((#[trigger] out[i]) matches Note::Began(t) ==> t < plan.deps@.len() && forall|k: int|
            0 <= k < plan.deps@[t as int]@.len() ==> succeeded_by(out, i, #[trigger] plan.deps@[t as int]@[k])) by {
            if let Note::Began(t) = out[i] {
                if i < notes.len() {
                    assert(notes[i] == out[i]);
                }
                assert forall|k: int| 0 <= k < plan.deps@[t as int]@.len() implies succeeded_by(out, i, #[trigger] plan.deps@[t as int]@[k]) by {
                    let d = plan.deps@[t as int]@[k];
                    assert(succeeded_by(notes, i, d));
                    let j = choose|j: int| 0 <= j < i && #[trigger] notes[j] == Note::Ended(d, Progress::Succeeded);
                    assert(out[j] == notes[j]);
                }
            }
        }
        assert forall|i: int, j: int| 0 <= i < j < out.len() && (#[trigger] out[i]) is Began implies out[i] != #[trigger] out[j] by {
            assert(out[i] == notes[i]);
            if j < notes.len() {
                assert(out[j] == notes[j]);
            }
        }
        assert forall|j: int, t: usize| #[trigger] ended_at(out, j, t) implies ended_at(notes, j, t) || j == notes.len() && (n matches Note::Ended(u, _) && u == t) by {
            if j < notes.len() {
                assert(out[j] == notes[j]);
            }
        }
        assert forall|i: int, j: int, t: usize| #[trigger] ended_at(out, i, t) && #[trigger] ended_at(out, j, t) implies i == j by {
            if i < notes.len() {
                assert(has_ended(notes, t)) by {
                    assert(ended_at(notes, i, t));
                }
            }
            if j < notes.len() {
                assert(has_ended(notes, t)) by {
                    assert(ended_at(notes, j, t));
                }
            }
        }
        assert forall|t: usize| #[trigger] has_ended(notes, t) implies has_ended(out, t) by {
            let j = choose|j: int| #[trigger] ended_at(notes, j, t);
            assert(ended_at(out, j, t));
        }
        assert forall|m: int| 0 <= m <= out.len() implies in_flight(#[trigger] out.take(m)) <= limit by {
            if m <= notes.len() {
                assert(out.take(m) == notes.take(m));
            } else {
                assert(out.take(m) == out);
            }
        }
        assert forall|t: usize| #[trigger] succeeded_by(notes, notes.len() as int, t) implies succeeded_by(out, notes.len() as int + 1, t) by {
            let j = choose|j: int| 0 <= j < notes.len() && #[trigger] notes[j] == Note::Ended(t, Progress::Succeeded);
            assert(out[j] == notes[j]);
        }
    }

    /// Takes the next decision, as the dispatcher does. A target that is skipped
    /// comes with the event that says so.
    pub fn next(&mut self) -> (r: BuildStep)
        requires
            old(self).well_formed(),
            !old(self).over(),
        ensures
            final(self).well_formed(),
            !final(self).over(),
            final(self).id() == old(self).id(),
            final(self).inner().plan() == old(self).inner().plan(),
            final(self).inner().limit() == old(self).inner().limit(),
            final(self).inner().hashes() == old(self).inner().hashes(),
            final(self).inner().keys() == old(self).inner().keys(),
            final(self).inner().failures() == old(self).inner().failures(),
            (r is Start || r is Report) <==> old(self).inner().queue().len() > 0 && tally(old(self).inner().progress(), Progress::Running) < old(self).inner().limit(),
            r is Finished <==> old(self).done(),
            (r is Wait || r is Finished) ==> *final(self) == *old(self),
            r matches BuildStep::Start { at, dep_hashes } ==> {
                &&& at == old(self).inner().queue()[0]
                &&& at < old(self).inner().size()
                &&& all_succeeded(old(self).inner().plan().deps@[at as int]@, old(self).inner().progress())
                &&& final(self).inner().progress() == old(self).inner().progress().update(at as int, Progress::Running)
                &&& final(self).inner().queue() == old(self).inner().queue().skip(1)
                &&& final(self).inner().tallies() == old(self).inner().tallies()
                &&& final(self).notes() == old(self).notes().push(Note::Began(at))
                &&& hash_views(dep_hashes@) == dep_hash_views(old(self).inner().plan().deps@[at as int]@, old(self).inner().hashes())
            },
            r matches BuildStep::Report(e) ==> {
                let at = old(self).inner().queue()[0];
                let deps = old(self).inner().plan().deps@[at as int]@;
                &&& at < old(self).inner().size()
                &&& exists|k: int|
                    #[trigger] first_broken(deps, old(self).inner().progress(), k) && reports_skip(
                        e,
                        old(self).id(),
                        old(self).inner().plan().ids@[at as int],
                        old(self).inner().plan().ids@[deps[k] as int],
                    )
                &&& advanced(old(self).inner().progress(), final(self).inner().progress(), at as int, Progress::Skipped)
                &&& final(self).inner().tallies() == (TargetCounts { skipped: (old(self).inner().tallies().skipped + 1) as u32, ..old(self).inner().tallies() })
                &&& final(self).inner().queue() == old(self).inner().queue().skip(1) + readied(
                    old(self).inner().plan().users@[at as int]@,
                    old(self).inner().progress(),
                    final(self).inner().progress(),
                )
                &&& final(self).notes() == old(self).notes().push(Note::Ended(at, Progress::Skipped))
            },
    {
        let ghost d0 = self.dispatcher;
        let ghost notes0 = self.notes@;
        proof {
            d0.law_states();
        }
        let step = self.dispatcher.next();
        proof {
            self.dispatcher.law_states();
        }
        match step {
            Step::Start { at, dep_hashes } => {
                proof {
                    let n = Note::Began(at);
                    let deps = d0.plan().deps@[at as int]@;
                    assert(notes0.push(n).drop_last() == notes0);
                    assert(d0.queue().contains(at)) by {
                        assert(d0.queue()[0] == at);
                    }
                    assert(d0.progress()[at as int] is Ready);
                    assert forall|k: int| 0 <= k < deps.len() implies succeeded_by(notes0, notes0.len() as int, #[trigger] deps[k]) by {
                        assert(d0.plan().deps@[at as int]@[k] < at);
                        assert(d0.progress()[deps[k] as int] is Succeeded);
                    }
                    assert(in_flight(notes0.push(n)) == tally(d0.progress(), Progress::Running) + 1);
                    assert forall|i: int| 0 <= i < notes0.len() implies #[trigger] notes0[i] != n by {}
                    Self::lemma_noted(notes0, n, d0.plan(), d0.limit());
                    crate::dispatch::lemma_tally_update(d0.progress(), at as int, Progress::Running, Progress::Running);
                }
                self.notes = Ghost(notes0.push(Note::Began(at)));
                assert(self.linked());
                BuildStep::Start { at, dep_hashes }
            },
            Step::Skip { at, bad } => {
                let ghost deps = d0.plan().deps@[at as int]@;
                let ghost k = choose|k: int| #[trigger] first_broken(deps, d0.progress(), k) && deps[k] == bad;
                proof {
                    let n = Note::Ended(at, Progress::Skipped);
                    assert(first_broken(deps, d0.progress(), k));
                    assert(d0.plan().deps@[at as int]@[k] < at);
                    assert(notes0.push(n).drop_last() == notes0);
                    assert(d0.queue().contains(at)) by {
                        assert(d0.queue()[0] == at);
                    }
                    assert(d0.progress()[at as int] is Ready);
                    self.dispatcher.lemma_running_kept(d0, at as int);
                    Self::lemma_noted(notes0, n, d0.plan(), d0.limit());
                }
                let event = skipped_event(self.id.as_str(), self.dispatcher.id(at), self.dispatcher.id(bad));
                self.notes = Ghost(notes0.push(Note::Ended(at, Progress::Skipped)));
                proof {
                    let p0 = d0.progress();
                    let p1 = self.dispatcher.progress();
                    assert forall|t: int| 0 <= t < p1.len() && (#[trigger] p1[t]) is Succeeded implies succeeded_by(self.notes@, self.notes@.len() as int, t as usize) by {
                        assert(p0[t] is Succeeded);
                        assert(succeeded_by(notes0, notes0.len() as int, t as usize));
                    }
                    assert forall|i: int| 0 <= i < self.notes@.len() implies ((#[trigger] self.notes@[i]) matches Note::Began(t) ==> t < p1.len() && (p1[t as int] is Running || p1[t as int] is Succeeded
                        || p1[t as int] is Failed)) by {
                        if let Note::Began(t) = self.notes@[i] {
                            assert(notes0[i] == self.notes@[i]);
                            assert(p0[t as int] == p1[t as int]);
                        }
                    }
                    lemma_ends_match(notes0, p0, p1, at, Progress::Skipped);
                    assert(self.linked());
                    assert(reports_skip(event, old(self).id(), d0.plan().ids@[at as int], d0.plan().ids@[deps[k] as int]));
                }
                BuildStep::Report(event)
            },
            Step::Wait => BuildStep::Wait,
            Step::Finished => BuildStep::Finished,
        }
    }

    /// Takes in that a running target ended.
    pub fn complete(&mut self, at: usize, key: CacheKey, c: Completion)
        requires
            old(self).well_formed(),
            !old(self).over(),
            at < old(self).inner().size(),
            old(self).inner().progress()[at as int] is Running,
        ensures
            final(self).well_formed(),
            !final(self).over(),
            final(self).id() == old(self).id(),
            final(self).inner().plan() == old(self).inner().plan(),
            final(self).inner().limit() == old(self).inner().limit(),
            advanced(old(self).inner().progress(), final(self).inner().progress(), at as int, outcome(c)),
            final(self).inner().tallies() == counted_in(old(self).inner().tallies(), c),
            final(self).inner().failures() == (if c is Failed { old(self).inner().failures().push(at) } else { old(self).inner().failures() }),
            final(self).inner().keys() == old(self).inner().keys().update(at as int, Some(key)),
            final(self).inner().hashes() == (match c {
                Completion::Built { output_hash } | Completion::Hit { output_hash } => old(self).inner().hashes().update(at as int, Some(output_hash)),
                Completion::Failed => old(self).inner().hashes(),
            }),
            final(self).inner().queue() == old(self).inner().queue() + readied(
                old(self).inner().plan().users@[at as int]@,
                old(self).inner().progress(),
                final(self).inner().progress(),
            ),
            final(self).notes() == old(self).notes().push(Note::Ended(at, outcome(c))),
    {
        let ghost d0 = self.dispatcher;
        let ghost notes0 = self.notes@;
        let ghost n = Note::Ended(at, outcome(c));
        proof {
            d0.law_states();
        }
        self.dispatcher.complete(at, key, c);
        self.notes = Ghost(notes0.push(n));
        proof {
            self.dispatcher.law_states();
            let p0 = d0.progress();
            let p1 = self.dispatcher.progress();
            assert(notes0.push(n).drop_last() == notes0);
            self.dispatcher.lemma_one_less(d0, at as int);
            lemma_ends_match(notes0, p0, p1, at, outcome(c));
            Self::lemma_noted(notes0, n, d0.plan(), d0.limit());
            assert forall|t: int| 0 <= t < p1.len() && (#[trigger] p1[t]) is Succeeded implies succeeded_by(self.notes@, self.notes@.len() as int, t as usize) by {
                if t == at {
                    assert(self.notes@[notes0.len() as int] == Note::Ended(at, Progress::Succeeded));
                } else {
                    assert(p0[t] is Succeeded);
                    assert(succeeded_by(notes0, notes0.len() as int, t as usize));
                }
            }
            assert forall|i: int| 0 <= i < self.notes@.len() implies ((#[trigger] self.notes@[i]) matches Note::Began(t) ==> t < p1.len() && (p1[t as int] is Running || p1[t as int] is Succeeded
                || p1[t as int] is Failed)) by {
                if let Note::Began(t) = self.notes@[i] {
                    assert(notes0[i] == self.notes@[i]);
                    if t != at {
                        assert(p0[t as int] == p1[t as int]);
                    }
                }
            }
            assert(self.linked());
        }
    }

    /// Closes the build, with the event that says so. Nothing comes after it.
    pub fn close(&mut self, duration_ms: u64) -> (r: Event)
        requires
            old(self).well_formed(),
            !old(self).over(),
            old(self).done(),
        ensures
            final(self).well_formed(),
            final(self).over(),
            final(self).id() == old(self).id(),
            final(self).inner() == old(self).inner(),
            final(self).notes() == old(self).notes().push(Note::Closed { ok: old(self).inner().tallies().failed == 0, counts: old(self).inner().tallies() }),
            r matches Event::BuildFinished { id, ok, duration_ms: d, counts } && id@ == old(self).id() && ok == (counts.failed == 0) && d == duration_ms && counts == old(
                self,
            ).inner().tallies(),
    {
        let ok: bool = self.dispatcher.ok();
        let counts = self.dispatcher.counts();
        let ghost notes0 = self.notes@;
        let ghost n = Note::Closed { ok, counts };
        self.notes = Ghost(notes0.push(n));
        self.over = true;
        proof {
            self.dispatcher.law_states();
            assert(notes0.push(n).drop_last() == notes0);
            Self::lemma_noted(notes0, n, self.dispatcher.plan(), self.dispatcher.limit());
            let p = self.dispatcher.progress();
            assert forall|t: int| 0 <= t < p.len() && (#[trigger] p[t]) is Succeeded implies succeeded_by(self.notes@, self.notes@.len() as int, t as usize) by {
                assert(succeeded_by(notes0, notes0.len() as int, t as usize));
            }
            assert forall|i: int| 0 <= i < self.notes@.len() implies ((#[trigger] self.notes@[i]) matches Note::Began(t) ==> t < p.len() && (p[t as int] is Running || p[t as int] is Succeeded
                || p[t as int] is Failed)) by {
                if self.notes@[i] is Began {
                    assert(notes0[i] == self.notes@[i]);
                }
            }
            assert(self.linked());
        }
        Event::BuildFinished { id: self.id.clone(), ok, duration_ms, counts }
    }

    pub fn dispatcher(&self) -> (r: &Dispatcher)
        ensures
            *r == self.inner(),
    {
        &self.dispatcher
    }
}

} // verus!
