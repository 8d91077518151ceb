use vstd::prelude::*;
use crate::agent::{Philosopher, Policy};
use crate::pool::Pool;

verus! {

/// What happened to a fork.
#[derive(Clone, Copy, Debug, PartialEq, Eq, Structural)]
pub enum EventKind {
    Acquired,
    Released,
}

/// One entry of the log: philosopher `agent` picked up or put down fork
/// `resource` at logical time `time`.
#[derive(Clone, Copy, Debug, PartialEq, Eq, Structural)]
pub struct Event {
    pub agent: u32,
    pub kind: EventKind,
    pub resource: usize,
    pub time: u64,
}

/// Where a philosopher stands in its protocol. A philosopher waiting for its
/// first fork stays `Idle`, one waiting for its second stays `HoldingFirst`;
/// putting both forks down takes it from `HoldingBoth` to `Done` in one step.
/// `Failed` is reached from a poisoned fork or a failure while holding forks,
/// and a failed philosopher holds nothing.
#[derive(Clone, Copy, Debug, PartialEq, Eq, Structural)]
pub enum Phase {
    Idle,
    HoldingFirst,
    HoldingBoth,
    Done,
    Failed,
}

/// What one step of a philosopher did.
#[derive(Clone, Copy, Debug, PartialEq, Eq, Structural)]
pub enum StepOutcome {
    /// It moved on in its protocol.
    Progressed,
    /// It waits for a fork that another philosopher holds; nothing changed.
    Blocked,
    /// It had already reached `Done` or `Failed`; nothing changed.
    Finished,
}

pub open spec fn finished(p: Phase) -> bool {
    p == Phase::Done || p == Phase::Failed
}

pub open spec fn rank(p: Phase) -> nat {
    match p {
        Phase::Idle => 0,
        Phase::HoldingFirst => 1,
        Phase::HoldingBoth => 2,
        _ => 3,
    }
}

/// How far all philosophers together have come: at most three per philosopher.
pub open spec fn progress(ps: Seq<Phase>) -> nat
    decreases ps.len(),
{
    if ps.len() == 0 {
        0
    } else {
        progress(ps.drop_last()) + rank(ps.last())
    }
}

proof fn lemma_progress_update(ps: Seq<Phase>, i: int, p: Phase)
    requires
        0 <= i < ps.len(),
    ensures
        progress(ps.update(i, p)) + rank(ps[i]) == progress(ps) + rank(p),
    decreases ps.len(),
{
    if i == ps.len() - 1 {
        assert(ps.update(i, p).drop_last() =~= ps.drop_last());
    } else {
        lemma_progress_update(ps.drop_last(), i, p);
        assert(ps.update(i, p).drop_last() =~= ps.drop_last().update(i, p));
    }
}

proof fn lemma_progress_bound(ps: Seq<Phase>)
    ensures
        progress(ps) <= 3 * ps.len(),
    decreases ps.len(),
{
    if ps.len() > 0 {
        lemma_progress_bound(ps.drop_last());
    }
}

/// Who holds fork `r` after the events of `log`, replayed from an empty table.
pub open spec fn holder_after(log: Seq<Event>, r: int) -> Option<u32>
    decreases log.len(),
{
    if log.len() == 0 {
        None
    } else if log.last().resource == r {
        if log.last().kind == EventKind::Acquired {
            Some(log.last().agent)
        } else {
            None
        }
    } else {
        holder_after(log.drop_last(), r)
    }
}

/// Event `e` may follow `log`: a fork is picked up only while nobody holds it,
/// and put down only by its holder.
pub open spec fn legal_next(log: Seq<Event>, e: Event) -> bool {
    match e.kind {
        EventKind::Acquired => holder_after(log, e.resource as int) is None,
        EventKind::Released => holder_after(log, e.resource as int) == Some(e.agent),
    }
}

pub open spec fn legal_at(log: Seq<Event>, k: int) -> bool {
    legal_next(log.take(k), log[k])
}

/// Mutual exclusion over a whole log: no fork is recorded as picked up by a
/// second philosopher before the first one put it down.
pub open spec fn exclusive(log: Seq<Event>) -> bool {
    forall|k: int| 0 <= k < log.len() ==> #[trigger] legal_at(log, k)
}

/// The events of philosopher `a` in `log`, in order, as (kind, fork).
pub open spec fn trace_of(log: Seq<Event>, a: u32) -> Seq<(EventKind, usize)>
    decreases log.len(),
{
    if log.len() == 0 {
        Seq::empty()
    } else if log.last().agent == a {
        trace_of(log.drop_last(), a).push((log.last().kind, log.last().resource))
    } else {
        trace_of(log.drop_last(), a)
    }
}

proof fn lemma_push(log: Seq<Event>, e: Event)
    ensures
        forall|r: int| #[trigger]
            holder_after(log.push(e), r) == if e.resource == r {
                if e.kind == EventKind::Acquired {
                    Some(e.agent)
                } else {
                    None
                }
            } else {
                holder_after(log, r)
            },
        forall|a: u32| #[trigger]
            trace_of(log.push(e), a) == if e.agent == a {
                trace_of(log, a).push((e.kind, e.resource))
            } else {
                trace_of(log, a)
            },
        exclusive(log) && legal_next(log, e) ==> exclusive(log.push(e)),
{
    assert(log.push(e).drop_last() =~= log);
    if exclusive(log) && legal_next(log, e) {
        assert forall|k: int| 0 <= k < log.push(e).len() implies #[trigger] legal_at(log.push(e), k) by {
            if k < log.len() {
                assert(log.push(e).take(k) =~= log.take(k));
                assert(legal_at(log, k));
            } else {
                assert(log.push(e).take(k) =~= log);
            }
        }
    }
}

/// The whole table: the pool, the philosophers, where each one stands, the
/// policy they follow, the log of everything that happened and a logical
/// clock that counts the steps that moved someone on.
pub struct Table {
    pub pool: Pool,
    pub agents: Vec<Philosopher>,
    pub phases: Vec<Phase>,
    pub policy: Policy,
    pub events: Vec<Event>,
    pub clock: u64,
}

impl Table {
    pub open spec fn n(&self) -> nat {
        self.agents@.len()
    }

    pub open spec fn first(&self, i: int) -> usize {
        self.agents@[i].first_spec(self.policy)
    }

    pub open spec fn second(&self, i: int) -> usize {
        self.agents@[i].second_spec(self.policy)
    }

    /// Philosopher `h` holds fork `r`, by where it stands in its protocol.
    pub open spec fn holds(&self, h: int, r: int) -> bool {
        ||| self.phases@[h] == Phase::HoldingFirst && self.first(h) == r
        ||| self.phases@[h] == Phase::HoldingBoth && (self.first(h) == r || self.second(h) == r)
    }

    /// The events a philosopher that has not failed has logged so far.
    pub open spec fn expected_trace(&self, i: int) -> Seq<(EventKind, usize)> {
        let f = self.first(i);
        let s = self.second(i);
        match self.phases@[i] {
            Phase::Idle => seq![],
            Phase::HoldingFirst => seq![(EventKind::Acquired, f)],
            Phase::HoldingBoth => seq![(EventKind::Acquired, f), (EventKind::Acquired, s)],
            _ => seq![
                (EventKind::Acquired, f),
                (EventKind::Acquired, s),
                (EventKind::Released, s),
                (EventKind::Released, f),
            ],
        }
    }

    /// Philosopher `i` carries id `i`, names forks of the pool, holds in the
    /// pool exactly what its phase says, and has logged what its phase says.
    pub open spec fn agent_ok(&self, i: int) -> bool {
        let a = self.agents@[i];
        let f = self.first(i);
        let s = self.second(i);
        &&& a.id == i
        &&& a.left_fork < self.pool.len()
        &&& a.right_fork < self.pool.len()
        &&& self.phases@[i] == Phase::HoldingFirst ==> self.pool.holder(f as int) == Some(i as u32)
        &&& self.phases@[i] == Phase::HoldingBoth ==> {
            &&& self.pool.holder(f as int) == Some(i as u32)
            &&& self.pool.holder(s as int) == Some(i as u32)
            &&& f != s
        }
        &&& self.phases@[i] == Phase::Done ==> f != s
        &&& self.phases@[i] != Phase::Failed ==> trace_of(self.events@, i as u32) == self.expected_trace(i)
    }

    /// Fork `r` is held by whoever the log says holds it, that holder is a
    /// philosopher whose phase says so, and a poisoned fork is held by nobody.
    pub open spec fn fork_ok(&self, r: int) -> bool {
        &&& self.pool.holder(r) == holder_after(self.events@, r)
        &&& self.pool.holder(r) matches Some(h) ==> h < self.n() && self.holds(h as int, r)
        &&& self.pool.forks@[r].poisoned ==> self.pool.holder(r) is None
    }

    /// The table's invariant: lock states, phases and log agree, and the log
    /// is mutually exclusive.
    pub open spec fn inv(&self) -> bool {
        &&& self.pool.wf()
        &&& self.phases@.len() == self.n()
        &&& self.n() <= u32::MAX
        &&& forall|i: int| 0 <= i < self.n() ==> #[trigger] self.agent_ok(i)
        &&& forall|r: int| 0 <= r < self.pool.len() ==> #[trigger] self.fork_ok(r)
        &&& exclusive(self.events@)
        &&& self.clock <= progress(self.phases@)
    }

    /// No fork is poisoned and nobody has failed.
    pub open spec fn sound(&self) -> bool {
        &&& forall|r: int| 0 <= r < self.pool.len() ==> !(#[trigger] self.pool.forks@[r]).poisoned
        &&& forall|i: int| 0 <= i < self.n() ==> #[trigger] self.phases@[i] != Phase::Failed
    }

    /// Every philosopher needs two different forks.
    pub open spec fn pairs_distinct(&self) -> bool {
        forall|i: int| 0 <= i < self.n() ==> (#[trigger] self.agents@[i]).left_fork != self.agents@[i].right_fork
    }

    /// A step of philosopher `i` would move it on.
    pub open spec fn enabled(&self, i: int) -> bool {
        match self.phases@[i] {
            Phase::Idle => self.pool.holder(self.first(i) as int) is None,
            Phase::HoldingFirst => self.pool.holder(self.second(i) as int) is None,
            Phase::HoldingBoth => true,
            _ => false,
        }
    }

    pub open spec fn all_finished(&self) -> bool {
        forall|i: int| 0 <= i < self.n() ==> finished(#[trigger] self.phases@[i])
    }

    /// Someone has not finished and nobody can move: the table is deadlocked.
    pub open spec fn stuck(&self) -> bool {
        &&& !self.all_finished()
        &&& forall|i: int| 0 <= i < self.n() ==> !#[trigger] self.enabled(i)
    }

    /// The events that a step of philosopher `i` appends to the log.
    pub open spec fn step_events(&self, i: int) -> Seq<Event> {
        let f = self.first(i);
        let s = self.second(i);
        let ev = |kind: EventKind, r: usize| Event { agent: i as u32, kind, resource: r, time: self.clock };
        match (self.phases@[i], self.next_phase(i)) {
            (Phase::Idle, Phase::HoldingFirst) => seq![ev(EventKind::Acquired, f)],
            (Phase::HoldingFirst, Phase::HoldingBoth) => seq![ev(EventKind::Acquired, s)],
            (Phase::HoldingFirst, Phase::Failed) => seq![ev(EventKind::Released, f)],
            (Phase::HoldingBoth, _) => seq![ev(EventKind::Released, s), ev(EventKind::Released, f)],
            _ => seq![],
        }
    }

    /// The events that a failure of philosopher `i` appends to the log.
    pub open spec fn fail_events(&self, i: int) -> Seq<Event> {
        let f = self.first(i);
        let s = self.second(i);
        let ev = |r: usize| Event { agent: i as u32, kind: EventKind::Released, resource: r, time: self.clock };
        match self.phases@[i] {
            Phase::HoldingFirst => seq![ev(f)],
            Phase::HoldingBoth => seq![ev(s), ev(f)],
            _ => seq![],
        }
    }

    /// Where a step takes philosopher `i`.
    pub open spec fn next_phase(&self, i: int) -> Phase {
        let f = self.first(i) as int;
        let s = self.second(i) as int;
        match self.phases@[i] {
            Phase::Idle => if self.pool.holder(f) is Some {
                Phase::Idle
            } else if self.pool.forks@[f].poisoned {
                Phase::Failed
            } else {
                Phase::HoldingFirst
            },
            Phase::HoldingFirst => if self.pool.holder(s) is Some {
                Phase::HoldingFirst
            } else if self.pool.forks@[s].poisoned {
                Phase::Failed
            } else {
                Phase::HoldingBoth
            },
            Phase::HoldingBoth => Phase::Done,
            p => p,
        }
    }
    proof fn lemma_same_view(pre: &Table, post: &Table)
        requires
            pre.inv(),
            post.pool.forks@ == pre.pool.forks@,
            post.agents@ == pre.agents@,
            post.phases@ == pre.phases@,
            post.policy == pre.policy,
            post.events@ == pre.events@,
            post.clock == pre.clock,
        ensures
            post.inv(),
    {
        assert forall|j: int| 0 <= j < post.n() implies #[trigger] post.agent_ok(j) by {
            assert(pre.agent_ok(j));
        }
        assert forall|r: int| 0 <= r < post.pool.len() implies #[trigger] post.fork_ok(r) by {
            assert(pre.fork_ok(r));
        }
    }

    /// Appends the event `kind` of fork `r` by philosopher `i` to the log,
    /// stamped with the clock.
    fn record(&mut self, i: usize, kind: EventKind, r: usize)
        ensures
            final(self).events@ == old(self).events@.push(
                Event { agent: i as u32, kind, resource: r, time: old(self).clock },
            ),
            final(self).pool == old(self).pool,
            final(self).agents == old(self).agents,
            final(self).phases == old(self).phases,
            final(self).policy == old(self).policy,
            final(self).clock == old(self).clock,
    {
        let e = Event { agent: i as u32, kind, resource: r, time: self.clock };
        self.events.push(e);
    }

    /// Whether a step of philosopher `i` would move it on.
    pub fn can_step(&self, i: usize) -> (r: bool)
        requires
            self.inv(),
            i < self.n(),
        ensures
            r == self.enabled(i as int),
    {
        let (f, s) = self.agents[i].acquisition_order(self.policy);
        proof {
            assert(self.agent_ok(i as int));
        }
        match self.phases[i] {
            Phase::Idle => self.pool.forks[f].holder.is_none(),
            Phase::HoldingFirst => self.pool.forks[s].holder.is_none(),
            Phase::HoldingBoth => true,
            _ => false,
        }
    }

    /// One step of philosopher `i`: it tries to pick up the fork it waits
    /// for, or puts both forks down once it holds them. A poisoned fork makes
    /// it fail, putting down the fork it already holds.
    pub fn step(&mut self, i: usize) -> (r: StepOutcome)
        requires
            old(self).inv(),
            i < old(self).n(),
        ensures
            final(self).inv(),
            final(self).agents == old(self).agents,
            final(self).policy == old(self).policy,
            final(self).pool.len() == old(self).pool.len(),
            final(self).phases@ == old(self).phases@.update(i as int, old(self).next_phase(i as int)),
            final(self).events@ == old(self).events@ + old(self).step_events(i as int),
            final(self).clock == old(self).clock + if old(self).enabled(i as int) {
                1int
            } else {
                0int
            },
            forall|k: int| 0 <= k < old(self).pool.len() ==> #[trigger] final(self).pool.forks@[k].poisoned
                == old(self).pool.forks@[k].poisoned,
            (r == StepOutcome::Progressed) == old(self).enabled(i as int),
            r == StepOutcome::Progressed ==> progress(final(self).phases@) > progress(old(self).phases@),
            r == StepOutcome::Finished <==> finished(old(self).phases@[i as int]),
            r != StepOutcome::Progressed ==> {
                &&& final(self).pool.forks@ == old(self).pool.forks@
                &&& final(self).events@ == old(self).events@
                &&& final(self).clock == old(self).clock
            },
            old(self).sound() ==> final(self).sound(),
    {
        let ghost pre = *self;
        let ghost n = self.n();
        let me = i as u32;
        let (f, s) = self.agents[i].acquisition_order(self.policy);
        proof {
            lemma_progress_bound(self.phases@);
            assert(self.agent_ok(i as int));
            assert(self.fork_ok(f as int));
            assert(self.fork_ok(s as int));
        }
        match self.phases[i] {
            Phase::Idle => {
                match self.pool.try_acquire(f, me) {
                    Ok(true) => {
                        self.record(i, EventKind::Acquired, f);
                        self.phases.set(i, Phase::HoldingFirst);
                        proof {
                            lemma_push(pre.events@, self.events@.last());
                            lemma_progress_update(pre.phases@, i as int, Phase::HoldingFirst);
                            assert(trace_of(self.events@, me) =~= self.expected_trace(i as int));
                        }
                        self.clock = self.clock + 1;
                        proof {
                            assert forall|j: int| 0 <= j < n implies #[trigger] self.agent_ok(j) by {
                                assert(pre.agent_ok(j));
                            }
                            assert forall|r: int| 0 <= r < self.pool.len() implies #[trigger] self.fork_ok(r) by {
                                assert(pre.fork_ok(r));
                            }
                        }
                        StepOutcome::Progressed
                    },
                    Ok(false) => {
                        proof {
                            Self::lemma_same_view(&pre, self);
                        }
                        StepOutcome::Blocked
                    },
                    Err(_) => {
                        self.phases.set(i, Phase::Failed);
                        proof {
                            lemma_progress_update(pre.phases@, i as int, Phase::Failed);
                        }
                        self.clock = self.clock + 1;
                        proof {
                            assert forall|j: int| 0 <= j < n implies #[trigger] self.agent_ok(j) by {
                                assert(pre.agent_ok(j));
                            }
                            assert forall|r: int| 0 <= r < self.pool.len() implies #[trigger] self.fork_ok(r) by {
                                assert(pre.fork_ok(r));
                            }
                        }
                        StepOutcome::Progressed
                    },
                }
            },
            Phase::HoldingFirst => {
                match self.pool.try_acquire(s, me) {
                    Ok(true) => {
                        self.record(i, EventKind::Acquired, s);
                        self.phases.set(i, Phase::HoldingBoth);
                        proof {
                            lemma_push(pre.events@, self.events@.last());
                            lemma_progress_update(pre.phases@, i as int, Phase::HoldingBoth);
                            assert(trace_of(self.events@, me) =~= self.expected_trace(i as int));
                        }
                        self.clock = self.clock + 1;
                        proof {
                            assert forall|j: int| 0 <= j < n implies #[trigger] self.agent_ok(j) by {
                                assert(pre.agent_ok(j));
                            }
                            assert forall|r: int| 0 <= r < self.pool.len() implies #[trigger] self.fork_ok(r) by {
                                assert(pre.fork_ok(r));
                            }
                        }
                        StepOutcome::Progressed
                    },
                    Ok(false) => {
                        proof {
                            Self::lemma_same_view(&pre, self);
                        }
                        StepOutcome::Blocked
                    },
                    Err(_) => {
                        self.pool.release(f, false);
                        self.record(i, EventKind::Released, f);
                        self.phases.set(i, Phase::Failed);
                        proof {
                            lemma_push(pre.events@, self.events@.last());
                            lemma_progress_update(pre.phases@, i as int, Phase::Failed);
                        }
                        self.clock = self.clock + 1;
                        proof {
                            assert forall|j: int| 0 <= j < n implies #[trigger] self.agent_ok(j) by {
                                assert(pre.agent_ok(j));
                            }
                            assert forall|r: int| 0 <= r < self.pool.len() implies #[trigger] self.fork_ok(r) by {
                                assert(pre.fork_ok(r));
                            }
                        }
                        StepOutcome::Progressed
                    },
                }
            },
            Phase::HoldingBoth => {
                self.pool.release(s, false);
                self.record(i, EventKind::Released, s);
                let ghost mid = self.events@;
                proof {
                    lemma_push(pre.events@, self.events@.last());
                }
                self.pool.release(f, false);
                self.record(i, EventKind::Released, f);
                self.phases.set(i, Phase::Done);
                proof {
                    lemma_push(mid, self.events@.last());
                    lemma_progress_update(pre.phases@, i as int, Phase::Done);
                    assert(trace_of(self.events@, me) =~= self.expected_trace(i as int));
                }
                self.clock = self.clock + 1;
                proof {
                    assert forall|j: int| 0 <= j < n implies #[trigger] self.agent_ok(j) by {
                        assert(pre.agent_ok(j));
                    }
                    assert forall|r: int| 0 <= r < self.pool.len() implies #[trigger] self.fork_ok(r) by {
                        assert(pre.fork_ok(r));
                    }
                }
                StepOutcome::Progressed
            },
            _ => StepOutcome::Finished,
        }
    }

    /// Philosopher `i` fails while holding forks: it puts down what it holds,
    /// and those forks stay poisoned, so that whoever picks one of them up
    /// next fails too. It ends `Failed`. A philosopher that holds nothing is
    /// left as it is, and `false` says so.
    pub fn fail(&mut self, i: usize) -> (r: bool)
        requires
            old(self).inv(),
            i < old(self).n(),
        ensures
            final(self).inv(),
            final(self).agents == old(self).agents,
            final(self).policy == old(self).policy,
            final(self).pool.len() == old(self).pool.len(),
            r == (old(self).phases@[i as int] == Phase::HoldingFirst || old(self).phases@[i as int]
                == Phase::HoldingBoth),
            r ==> final(self).phases@ == old(self).phases@.update(i as int, Phase::Failed),
            final(self).events@ == old(self).events@ + old(self).fail_events(i as int),
            final(self).clock == old(self).clock + if r {
                1int
            } else {
                0int
            },
            !r ==> final(self).phases@ == old(self).phases@,
            forall|k: int| 0 <= k < old(self).pool.len() ==> #[trigger] final(self).pool.forks@[k] == if old(
                self,
            ).pool.holder(k) == Some(i as u32) {
                crate::pool::Fork { id: k as u32, holder: None, poisoned: true }
            } else {
                old(self).pool.forks@[k]
            },
    {
        let ghost pre = *self;
        let ghost n = self.n();
        let (f, s) = self.agents[i].acquisition_order(self.policy);
        proof {
            lemma_progress_bound(self.phases@);
            assert(self.agent_ok(i as int));
            assert(self.fork_ok(f as int));
            assert(self.fork_ok(s as int));
            assert forall|k: int| 0 <= k < pre.pool.len() && pre.pool.holder(k) == Some(i as u32) implies k
                == f || (pre.phases@[i as int] == Phase::HoldingBoth && k == s) by {
                assert(pre.fork_ok(k));
            }
        }
        match self.phases[i] {
            Phase::HoldingFirst => {
                self.pool.release(f, true);
                self.record(i, EventKind::Released, f);
                self.phases.set(i, Phase::Failed);
                proof {
                    lemma_push(pre.events@, self.events@.last());
                    lemma_progress_update(pre.phases@, i as int, Phase::Failed);
                }
            },
            Phase::HoldingBoth => {
                self.pool.release(s, true);
                self.record(i, EventKind::Released, s);
                let ghost mid = self.events@;
                proof {
                    lemma_push(pre.events@, self.events@.last());
                }
                self.pool.release(f, true);
                self.record(i, EventKind::Released, f);
                self.phases.set(i, Phase::Failed);
                proof {
                    lemma_push(mid, self.events@.last());
                    lemma_progress_update(pre.phases@, i as int, Phase::Failed);
                }
            },
            _ => {
                proof {
                    Self::lemma_same_view(&pre, self);
                    assert forall|k: int| 0 <= k < pre.pool.len() implies pre.pool.holder(k) != Some(
                        i as u32,
                    ) by {
                        assert(pre.fork_ok(k));
                    }
                }
                return false;
            },
        }
        self.clock = self.clock + 1;
        proof {
            assert forall|j: int| 0 <= j < n implies #[trigger] self.agent_ok(j) by {
                assert(pre.agent_ok(j));
            }
            assert forall|r: int| 0 <= r < self.pool.len() implies #[trigger] self.fork_ok(r) by {
                assert(pre.fork_ok(r));
            }
        }
        true
    }

    /// A table of `forks` free forks with every philosopher idle and an empty
    /// log. Philosopher `i` must carry id `i` and name forks of the pool.
    pub fn new(agents: Vec<Philosopher>, forks: u32, policy: Policy) -> (r: Table)
        requires
            agents@.len() <= u32::MAX,
            forall|i: int| 0 <= i < agents@.len() ==> {
                &&& (#[trigger] agents@[i]).id == i
                &&& agents@[i].left_fork < forks
                &&& agents@[i].right_fork < forks
            },
        ensures
            r.inv(),
            r.sound(),
            r.agents@ == agents@,
            r.policy == policy,
            r.pool.len() == forks,
            r.pool.all_free(),
            r.events@.len() == 0,
            r.clock == 0,
            forall|i: int| 0 <= i < r.n() ==> #[trigger] r.phases@[i] == Phase::Idle,
    {
        let n = agents.len();
        let mut phases: Vec<Phase> = Vec::new();
        let mut k: usize = 0;
        while k < n
            invariant
                k <= n,
                phases@.len() == k,
                forall|j: int| 0 <= j < k ==> #[trigger] phases@[j] == Phase::Idle,
            decreases n - k,
        {
            phases.push(Phase::Idle);
            k = k + 1;
        }
        let t = Table { pool: Pool::initialize(forks), agents, phases, policy, events: Vec::new(), clock: 0 };
        proof {
            assert forall|j: int| 0 <= j < t.n() implies #[trigger] t.agent_ok(j) by {
                assert(trace_of(t.events@, j as u32) =~= t.expected_trace(j));
            }
            assert forall|r: int| 0 <= r < t.pool.len() implies #[trigger] t.fork_ok(r) by {
                assert(t.pool.forks@[r].is_free());
            }
            lemma_progress_nonneg(t.phases@);
        }
        t
    }

    /// The first philosopher that can move on, if any.
    pub fn find_enabled(&self) -> (r: Option<usize>)
        requires
            self.inv(),
        ensures
            r matches Some(i) ==> i < self.n() && self.enabled(i as int),
            r is None ==> forall|i: int| 0 <= i < self.n() ==> !#[trigger] self.enabled(i),
    {
        let n = self.agents.len();
        let mut j: usize = 0;
        while j < n
            invariant
                n == self.n(),
                self.inv(),
                j <= n,
                forall|k: int| 0 <= k < j ==> !#[trigger] self.enabled(k),
            decreases n - j,
        {
            if self.can_step(j) {
                return Some(j);
            }
            j = j + 1;
        }
        None
    }

    /// Whether every philosopher has reached `Done` or `Failed`.
    pub fn is_finished(&self) -> (r: bool)
        requires
            self.phases@.len() == self.n(),
        ensures
            r == self.all_finished(),
    {
        let n = self.phases.len();
        let mut j: usize = 0;
        while j < n
            invariant
                n == self.phases@.len(),
                n == self.n(),
                j <= n,
                forall|k: int| 0 <= k < j ==> finished(#[trigger] self.phases@[k]),
            decreases n - j,
        {
            match self.phases[j] {
                Phase::Done | Phase::Failed => {},
                _ => {
                    assert(!finished(self.phases@[j as int]));
                    return false;
                },
            }
            j = j + 1;
        }
        true
    }

    /// Whether the table is deadlocked: someone has not finished and nobody
    /// can move on.
    pub fn is_stuck(&self) -> (r: bool)
        requires
            self.inv(),
        ensures
            r == self.stuck(),
    {
        !self.is_finished() && self.find_enabled().is_none()
    }

    /// Steps philosophers, always the first one that can move on, until all
    /// have finished or the table is deadlocked. Each step moves someone on,
    /// so this takes at most three steps per philosopher. Under the global
    /// order, with two different forks per philosopher, it always finishes.
    pub fn run_to_completion(&mut self) -> (completed: bool)
        requires
            old(self).inv(),
        ensures
            final(self).inv(),
            final(self).agents == old(self).agents,
            final(self).policy == old(self).policy,
            final(self).pool.len() == old(self).pool.len(),
            completed == final(self).all_finished(),
            !completed ==> final(self).stuck(),
            old(self).sound() ==> final(self).sound(),
            old(self).policy == Policy::GlobalOrder && old(self).pairs_distinct() ==> completed,
    {
        let ghost n = self.n();
        proof {
            lemma_progress_bound(self.phases@);
        }
        loop
            invariant
                self.inv(),
                self.n() == n,
                self.agents == old(self).agents,
                self.policy == old(self).policy,
                self.pool.len() == old(self).pool.len(),
                old(self).sound() ==> self.sound(),
                progress(self.phases@) <= 3 * n,
            decreases 3 * n - progress(self.phases@),
        {
            match self.find_enabled() {
                None => {
                    let done = self.is_finished();
                    proof {
                        if !done && self.policy == Policy::GlobalOrder && self.pairs_distinct() {
                            lemma_global_order_never_stuck(*self);
                        }
                    }
                    return done;
                },
                Some(i) => {
                    self.step(i);
                    proof {
                        lemma_progress_bound(self.phases@);
                    }
                },
            }
        }
    }
}

/// The outcome of a run: the log of every event in the order they happened,
/// where each philosopher ended, whether all of them finished, and the
/// logical time the run took, in steps that moved someone on.
pub struct RunResult {
    pub events: Vec<Event>,
    pub phases: Vec<Phase>,
    pub completed: bool,
    pub total_duration: u64,
}

/// The events of philosopher `a` in `log`, in order.
pub open spec fn events_of(log: Seq<Event>, a: u32) -> Seq<Event>
    decreases log.len(),
{
    if log.len() == 0 {
        Seq::empty()
    } else if log.last().agent == a {
        events_of(log.drop_last(), a).push(log.last())
    } else {
        events_of(log.drop_last(), a)
    }
}

/// The four events of a philosopher that ate with forks `f` then `s`.
pub open spec fn full_trace(f: usize, s: usize) -> Seq<(EventKind, usize)> {
    seq![
        (EventKind::Acquired, f),
        (EventKind::Acquired, s),
        (EventKind::Released, s),
        (EventKind::Released, f),
    ]
}

proof fn lemma_events_of_trace(log: Seq<Event>, a: u32)
    ensures
        events_of(log, a).map_values(|e: Event| (e.kind, e.resource)) == trace_of(log, a),
    decreases log.len(),
{
    if log.len() > 0 {
        lemma_events_of_trace(log.drop_last(), a);
        assert(events_of(log, a).map_values(|e: Event| (e.kind, e.resource)) =~= trace_of(log, a));
    }
}

impl RunResult {
    /// The events of philosopher `agent`, in the order they happened.
    pub fn agent_log(&self, agent: u32) -> (r: Vec<Event>)
        ensures
            r@ == events_of(self.events@, agent),
            r@.map_values(|e: Event| (e.kind, e.resource)) == trace_of(self.events@, agent),
    {
        let n = self.events.len();
        let mut r: Vec<Event> = Vec::new();
        let mut k: usize = 0;
        while k < n
            invariant
                n == self.events@.len(),
                k <= n,
                r@ == events_of(self.events@.take(k as int), agent),
            decreases n - k,
        {
            let e = self.events[k];
            proof {
                assert(self.events@.take(k + 1).drop_last() =~= self.events@.take(k as int));
            }
            if e.agent == agent {
                r.push(e);
            }
            k = k + 1;
        }
        proof {
            assert(self.events@.take(n as int) =~= self.events@);
            lemma_events_of_trace(self.events@, agent);
        }
        r
    }
}

/// Validates the configuration against a pool of `m` forks and, when it is
/// valid, runs all philosophers on a fresh table under `policy` until all
/// have finished or the table is deadlocked. An invalid configuration is
/// rejected before anyone starts.
pub fn run(descriptors: &Vec<crate::config::Descriptor>, m: u32, policy: Policy) -> (r: Result<RunResult, crate::config::ConfigurationError>)
    requires
        descriptors@.len() <= u32::MAX,
    ensures
        r is Err <==> exists|i: int| 0 <= i < descriptors@.len() && !(#[trigger] descriptors@[i]).in_range(m as usize),
        r matches Err(e) ==> {
            &&& 0 <= e.agent < descriptors@.len()
            &&& !descriptors@[e.agent as int].in_range(m as usize)
            &&& forall|j: int| 0 <= j < e.agent ==> (#[trigger] descriptors@[j]).in_range(m as usize)
            &&& e.resource == if descriptors@[e.agent as int].resource_a >= m {
                descriptors@[e.agent as int].resource_a
            } else {
                descriptors@[e.agent as int].resource_b
            }
        },
        r matches Ok(res) ==> {
            &&& res.phases@.len() == descriptors@.len()
            &&& exclusive(res.events@)
            &&& forall|i: int| 0 <= i < res.phases@.len() ==> #[trigger] res.phases@[i] != Phase::Failed
            &&& res.completed == forall|i: int| 0 <= i < res.phases@.len() ==> #[trigger] res.phases@[i] == Phase::Done
            &&& forall|i: int| 0 <= i < res.phases@.len() && #[trigger] res.phases@[i] == Phase::Done ==> {
                let (f, s) = crate::agent::order_spec(policy, i as u32, descriptors@[i].resource_a, descriptors@[i].resource_b);
                trace_of(res.events@, i as u32) == full_trace(f, s)
            }
            &&& res.total_duration <= 3 * descriptors@.len()
            &&& policy == Policy::GlobalOrder && (forall|i: int| 0 <= i < descriptors@.len() ==> (#[trigger] descriptors@[i]).resource_a != descriptors@[i].resource_b) ==> res.completed
        },
{
    let agents = match crate::config::validate(descriptors, m as usize) {
        Ok(agents) => agents,
        Err(e) => {
            return Err(e);
        },
    };
    let mut table = Table::new(agents, m, policy);
    let completed = table.run_to_completion();
    proof {
        lemma_progress_bound(table.phases@);
        assert forall|i: int| 0 <= i < table.n() && #[trigger] table.phases@[i] == Phase::Done implies trace_of(
            table.events@,
            i as u32,
        ) == full_trace(table.first(i), table.second(i)) by {
            assert(table.agent_ok(i));
            assert(table.expected_trace(i) =~= full_trace(table.first(i), table.second(i)));
        }
        if completed {
            assert forall|i: int| 0 <= i < table.n() implies #[trigger] table.phases@[i] == Phase::Done by {
                assert(finished(table.phases@[i]));
            }
        } else {
            let i = choose|i: int| 0 <= i < table.n() && !finished(#[trigger] table.phases@[i]);
            assert(table.phases@[i] != Phase::Done);
        }
    }
    Ok(RunResult { events: table.events, phases: table.phases, completed, total_duration: table.clock })
}

proof fn lemma_still_held(log: Seq<Event>, r: usize, k1: int, j: int)
    requires
        exclusive(log),
        0 <= k1 < j <= log.len(),
        log[k1].kind == EventKind::Acquired,
        log[k1].resource == r,
        forall|k: int| k1 < k < j ==> !(#[trigger] log[k].resource == r && log[k].kind == EventKind::Released),
    ensures
        holder_after(log.take(j), r as int) is Some,
    decreases j - k1,
{
    assert(log.take(j).drop_last() =~= log.take(j - 1));
    if j > k1 + 1 {
        lemma_still_held(log, r, k1, j - 1);
        assert(legal_at(log, j - 1));
        assert(log.take(j - 1) =~= log.take(j).drop_last());
    }
}

/// Mutual exclusion, event by event: in a log that the table can produce, a
/// fork that was picked up is put down before anyone picks it up again.
pub proof fn lemma_no_double_acquire(log: Seq<Event>, k1: int, k2: int)
    requires
        exclusive(log),
        0 <= k1 < k2 < log.len(),
        log[k1].kind == EventKind::Acquired,
        log[k2].kind == EventKind::Acquired,
        log[k1].resource == log[k2].resource,
    ensures
        exists|k: int|
            k1 < k < k2 && #[trigger] log[k].resource == log[k1].resource && log[k].kind == EventKind::Released,
{
    let r = log[k1].resource;
    if forall|k: int| k1 < k < k2 ==> !(#[trigger] log[k].resource == r && log[k].kind == EventKind::Released) {
        lemma_still_held(log, r, k1, k2);
        assert(legal_at(log, k2));
    }
}

proof fn lemma_progress_nonneg(ps: Seq<Phase>)
    ensures
        (forall|i: int| 0 <= i < ps.len() ==> #[trigger] ps[i] == Phase::Idle) ==> progress(ps) == 0,
    decreases ps.len(),
{
    if ps.len() > 0 {
        lemma_progress_nonneg(ps.drop_last());
        if forall|i: int| 0 <= i < ps.len() ==> #[trigger] ps[i] == Phase::Idle {
            assert forall|i: int| 0 <= i < ps.drop_last().len() implies #[trigger] ps.drop_last()[i] == Phase::Idle by {
                assert(ps.drop_last()[i] == ps[i]);
            }
            assert(ps[ps.len() - 1] == Phase::Idle);
        }
    }
}

/// Under the global order the fork a philosopher picks up first is the lower
/// of its two, and with two different forks, strictly lower.
proof fn lemma_global_first_lower(t: &Table, i: int)
    requires
        t.policy == Policy::GlobalOrder,
        0 <= i < t.n(),
        t.agents@[i].left_fork != t.agents@[i].right_fork,
    ensures
        t.first(i) < t.second(i),
{
}

/// Nobody can move, nobody holds both forks and someone holds one: then for
/// every bound `d` some philosopher holding its first fork has that fork at
/// `d` or above. Each such philosopher waits for a higher fork held by another
/// one that holds only its first fork.
proof fn lemma_waiting_chain(t: &Table, d: nat)
    requires
        t.inv(),
        t.policy == Policy::GlobalOrder,
        t.pairs_distinct(),
        forall|i: int| 0 <= i < t.n() ==> !#[trigger] t.enabled(i),
        forall|i: int| 0 <= i < t.n() ==> #[trigger] t.phases@[i] != Phase::HoldingBoth,
        exists|i: int| 0 <= i < t.n() && #[trigger] t.phases@[i] == Phase::HoldingFirst,
    ensures
        exists|j: int| 0 <= j < t.n() && #[trigger] t.phases@[j] == Phase::HoldingFirst && t.first(j) >= d,
    decreases d,
{
    if d > 0 {
        lemma_waiting_chain(t, (d - 1) as nat);
        let j = choose|j: int| 0 <= j < t.n() && #[trigger] t.phases@[j] == Phase::HoldingFirst && t.first(j) >= d - 1;
        assert(t.agent_ok(j));
        assert(!t.enabled(j));
        lemma_global_first_lower(t, j);
        let s = t.second(j) as int;
        assert(t.fork_ok(s));
        let h = t.pool.holder(s)->0 as int;
        assert(t.phases@[h] == Phase::HoldingFirst && t.first(h) == s);
    }
}

/// Deadlock-freedom under the global order: on a table where every
/// philosopher needs two different forks and picks the lower one up first,
/// whenever someone has not finished, some philosopher can move on.
pub proof fn lemma_global_order_never_stuck(t: Table)
    requires
        t.inv(),
        t.policy == Policy::GlobalOrder,
        t.pairs_distinct(),
        !t.all_finished(),
    ensures
        exists|i: int| 0 <= i < t.n() && #[trigger] t.enabled(i),
{
    if exists|i: int| 0 <= i < t.n() && #[trigger] t.phases@[i] == Phase::HoldingBoth {
        let i = choose|i: int| 0 <= i < t.n() && #[trigger] t.phases@[i] == Phase::HoldingBoth;
        assert(t.enabled(i));
    } else if exists|i: int| 0 <= i < t.n() && #[trigger] t.phases@[i] == Phase::HoldingFirst {
        if forall|i: int| 0 <= i < t.n() ==> !#[trigger] t.enabled(i) {
            lemma_waiting_chain(&t, t.pool.len());
            let j = choose|j: int| 0 <= j < t.n() && #[trigger] t.phases@[j] == Phase::HoldingFirst && t.first(j) >= t.pool.len();
            assert(t.agent_ok(j));
        }
    } else {
        let i = choose|i: int| 0 <= i < t.n() && !finished(#[trigger] t.phases@[i]);
        assert(t.agent_ok(i));
        let f = t.first(i) as int;
        assert(t.fork_ok(f));
        assert(t.enabled(i));
    }
}

} // verus!
