//! The abstract state of a pool and the transitions of the dispatch protocol.
//!
//! Jobs are numbered in the order of their submission, starting at zero; the
//! number of a job is its ticket. The queue hands tickets out in order, so the
//! state only has to remember how many were handed out, which worker holds
//! which ticket, and which tickets were finished.
use crate::channel::ChannelState;
use vstd::prelude::*;

verus! {

/// What a worker is doing, as the protocol sees it.
pub enum Activity {
    /// Waiting for a job, or about to ask for one.
    Idle,
    /// Running the job with this ticket.
    Executing { ticket: nat },
    /// Out of its loop for good.
    Terminated,
}

/// What a claim resolves to.
#[derive(Debug, PartialEq, Eq)]
pub enum Claim<J> {
    /// The oldest pending job, now owned by the claiming worker.
    Job(J),
    /// Nothing is pending but more may come: the worker has to wait.
    Wait,
    /// Nothing is pending and nothing will come: the worker leaves its loop.
    Closed,
}

/// One step of the protocol.
pub enum Event<J> {
    /// A caller hands in a job.
    Submit { job: J },
    /// A worker asks for the next job.
    Claim { worker: int },
    /// A worker reports that the job it held has run to its end.
    Finish { worker: int },
    /// The pool stops accepting jobs.
    Close,
}

/// The state of a pool, with its history.
#[verifier::ext_equal]
pub struct PoolState<J> {
    /// Whether jobs may still be submitted.
    pub accepting: bool,
    /// One entry per worker, in construction order.
    pub workers: Seq<Activity>,
    /// Every job ever submitted, in submission order: ticket `t` is `submitted[t]`.
    pub submitted: Seq<J>,
    /// How many jobs were handed to workers: the tickets below this number.
    pub claimed: nat,
    /// The tickets of the jobs that have run to their end, in that order.
    pub completed: Seq<nat>,
}

impl<J> PoolState<J> {
    /// A new pool of `size` idle workers that has seen no job.
    pub open spec fn init(size: nat) -> Self {
        PoolState {
            accepting: true,
            workers: Seq::new(size, |w: int| Activity::Idle),
            submitted: Seq::empty(),
            claimed: 0,
            completed: Seq::empty(),
        }
    }

    /// The number of workers.
    pub open spec fn size(self) -> nat {
        self.workers.len()
    }

    /// The jobs that wait for a worker, oldest first.
    pub open spec fn pending(self) -> Seq<J> {
        self.submitted.skip(self.claimed as int)
    }

    /// Worker `w` exists and is idle.
    pub open spec fn idle(self, w: int) -> bool {
        0 <= w < self.workers.len() && self.workers[w] is Idle
    }

    /// Worker `w` exists and is executing some job.
    pub open spec fn busy(self, w: int) -> bool {
        0 <= w < self.workers.len() && self.workers[w] is Executing
    }

    /// Worker `w` exists and is executing the job with ticket `t`.
    pub open spec fn runs(self, w: int, t: nat) -> bool {
        0 <= w < self.workers.len() && self.workers[w] == (Activity::Executing { ticket: t })
    }

    /// The job with ticket `t` waits in the queue.
    pub open spec fn waiting(self, t: nat) -> bool {
        self.claimed <= t < self.submitted.len()
    }

    /// Some worker is executing the job with ticket `t`.
    pub open spec fn in_flight(self, t: nat) -> bool {
        exists|w: int| self.runs(w, t)
    }

    /// The job with ticket `t` has run to its end.
    pub open spec fn done(self, t: nat) -> bool {
        self.completed.contains(t)
    }

    /// How often the job with ticket `t` has run to its end.
    pub open spec fn executions(self, t: nat) -> nat {
        self.completed.to_multiset().count(t)
    }

    /// The jobs that have run to their end, in that order.
    pub open spec fn executed(self) -> Seq<J> {
        Seq::new(self.completed.len(), |i: int| self.submitted[self.completed[i] as int])
    }

    /// Every worker has left its loop.
    pub open spec fn all_terminated(self) -> bool {
        forall|w: int| 0 <= w < self.workers.len() ==> self.workers[w] is Terminated
    }

    /// The dispatch channel of the pool: open while the pool accepts jobs, and
    /// holding the pending ones.
    pub open spec fn channel(self) -> ChannelState<J> {
        ChannelState { open: self.accepting, pending: self.pending() }
    }

    /// What a claim made in this state resolves to.
    pub open spec fn claim_outcome(self) -> Claim<J> {
        self.channel().claim_outcome()
    }

    /// The state after `job` was submitted.
    pub open spec fn submit(self, job: J) -> Self {
        PoolState { submitted: self.submitted.push(job), ..self }
    }

    /// The state after worker `w` made a claim: it takes the oldest pending
    /// job if there is one, stays idle if it has to wait, and terminates if
    /// the pool is closed and drained.
    pub open spec fn claim(self, w: int) -> Self {
        if self.claimed < self.submitted.len() {
            PoolState {
                workers: self.workers.update(w, Activity::Executing { ticket: self.claimed }),
                claimed: self.claimed + 1,
                ..self
            }
        } else if self.accepting {
            self
        } else {
            PoolState { workers: self.workers.update(w, Activity::Terminated), ..self }
        }
    }

    /// The state after worker `w` finished the job it held.
    pub open spec fn finish(self, w: int) -> Self {
        PoolState {
            workers: self.workers.update(w, Activity::Idle),
            completed: self.completed.push(self.workers[w]->ticket),
            ..self
        }
    }

    /// The state after the pool stopped accepting jobs.
    pub open spec fn close(self) -> Self {
        PoolState { accepting: false, ..self }
    }

    /// Whether the protocol allows `e` in this state: jobs are submitted only
    /// while the pool accepts them, only an idle worker claims, and only an
    /// executing worker finishes.
    pub open spec fn enabled(self, e: Event<J>) -> bool {
        match e {
            Event::Submit { job } => self.accepting,
            Event::Claim { worker } => self.idle(worker),
            Event::Finish { worker } => self.busy(worker),
            Event::Close => true,
        }
    }

    /// The state after `e`.
    pub open spec fn step(self, e: Event<J>) -> Self {
        match e {
            Event::Submit { job } => self.submit(job),
            Event::Claim { worker } => self.claim(worker),
            Event::Finish { worker } => self.finish(worker),
            Event::Close => self.close(),
        }
    }

    /// Whether the protocol allows the events of `trace`, one after the other.
    pub open spec fn admits(self, trace: Seq<Event<J>>) -> bool
        decreases trace.len(),
    {
        trace.len() > 0 ==> self.enabled(trace[0]) && self.step(trace[0]).admits(
            trace.skip(1),
        )
    }

    /// The state after the events of `trace`, one after the other.
    pub open spec fn run(self, trace: Seq<Event<J>>) -> Self
        decreases trace.len(),
    {
        if trace.len() == 0 {
            self
        } else {
            self.step(trace[0]).run(trace.skip(1))
        }
    }

    /// What holds of every state that a pool can reach.
    pub open spec fn inv(self) -> bool {
        &&& self.workers.len() >= 1
        &&& self.claimed <= self.submitted.len()
        &&& self.completed.no_duplicates()
        &&& forall|w: int, t: nat| #[trigger] self.runs(w, t) ==> t < self.claimed && !self.done(t)
        &&& forall|w1: int, w2: int, t: nat|
            #![trigger self.runs(w1, t), self.runs(w2, t)]
            self.runs(w1, t) && self.runs(w2, t) ==> w1 == w2
        &&& forall|t: nat| #[trigger] self.done(t) ==> t < self.claimed
        &&& forall|t: nat| t < self.claimed ==> #[trigger] self.done(t) || self.in_flight(t)
        &&& forall|w: int|
            0 <= w < self.workers.len() && #[trigger] self.workers[w] is Terminated
                ==> !self.accepting && self.claimed == self.submitted.len()
    }
}

/// A new pool is in a state that a pool can reach.
pub proof fn lemma_init_inv<J>(size: nat)
    requires
        size >= 1,
    ensures
        PoolState::<J>::init(size).inv(),
{
}

/// Submitting a job to an accepting pool keeps the state reachable.
pub proof fn lemma_submit_inv<J>(s: PoolState<J>, job: J)
    requires
        s.inv(),
        s.accepting,
    ensures
        s.submit(job).inv(),
{
    let n = s.submit(job);
    assert forall|w: int, t: nat| #[trigger] n.runs(w, t) implies t < n.claimed && !n.done(t) by {
        assert(s.runs(w, t));
    }
    assert forall|w1: int, w2: int, t: nat|
        #![trigger n.runs(w1, t), n.runs(w2, t)]
        n.runs(w1, t) && n.runs(w2, t) implies w1 == w2 by {
        assert(s.runs(w1, t) && s.runs(w2, t));
    }
    assert forall|t: nat| #[trigger] n.done(t) implies t < n.claimed by {
        assert(s.done(t));
    }
    assert forall|t: nat| t < n.claimed implies #[trigger] n.done(t) || n.in_flight(t) by {
        if !s.done(t) {
            let w = choose|w: int| s.runs(w, t);
            assert(n.runs(w, t));
        }
    }
}

/// A claim by an idle worker keeps the state reachable.
pub proof fn lemma_claim_inv<J>(s: PoolState<J>, w: int)
    requires
        s.inv(),
        s.idle(w),
    ensures
        s.claim(w).inv(),
{
    let n = s.claim(w);
    if s.claimed < s.submitted.len() {
        let c = s.claimed;
        assert(n.runs(w, c));
        assert forall|v: int, t: nat| #[trigger] n.runs(v, t) implies t < n.claimed && !n.done(t) by {
            if v == w {
                assert(t == c);
                if s.done(c) {
                }
            } else {
                assert(s.runs(v, t));
            }
        }
        assert forall|w1: int, w2: int, t: nat|
            #![trigger n.runs(w1, t), n.runs(w2, t)]
            n.runs(w1, t) && n.runs(w2, t) implies w1 == w2 by {
            if w1 != w {
                assert(s.runs(w1, t));
            }
            if w2 != w {
                assert(s.runs(w2, t));
            }
        }
        assert forall|t: nat| #[trigger] n.done(t) implies t < n.claimed by {
            assert(s.done(t));
        }
        assert forall|t: nat| t < n.claimed implies #[trigger] n.done(t) || n.in_flight(t) by {
            if t == c {
                assert(n.runs(w, t));
            } else if !s.done(t) {
                let v = choose|v: int| s.runs(v, t);
                assert(v != w);
                assert(n.runs(v, t));
            }
        }
        assert forall|v: int|
            0 <= v < n.workers.len() && #[trigger] n.workers[v] is Terminated implies !n.accepting
            && n.claimed == n.submitted.len() by {
            assert(v != w);
            assert(s.workers[v] is Terminated);
        }
    } else if !s.accepting {
        assert forall|v: int, t: nat| #[trigger] n.runs(v, t) implies t < n.claimed && !n.done(t) by {
            assert(s.runs(v, t));
        }
        assert forall|w1: int, w2: int, t: nat|
            #![trigger n.runs(w1, t), n.runs(w2, t)]
            n.runs(w1, t) && n.runs(w2, t) implies w1 == w2 by {
            assert(s.runs(w1, t) && s.runs(w2, t));
        }
        assert forall|t: nat| #[trigger] n.done(t) implies t < n.claimed by {
            assert(s.done(t));
        }
        assert forall|t: nat| t < n.claimed implies #[trigger] n.done(t) || n.in_flight(t) by {
            if !s.done(t) {
                let v = choose|v: int| s.runs(v, t);
                assert(n.runs(v, t));
            }
        }
    }
}

/// The end of a job on an executing worker keeps the state reachable.
pub proof fn lemma_finish_inv<J>(s: PoolState<J>, w: int)
    requires
        s.inv(),
        s.busy(w),
    ensures
        s.finish(w).inv(),
{
    let n = s.finish(w);
    let k = s.workers[w]->ticket;
    assert(s.runs(w, k));
    assert(!s.done(k));
    assert forall|t: nat| n.done(t) <==> s.done(t) || t == k by {
        if s.done(t) {
            let i = choose|i: int| 0 <= i < s.completed.len() && s.completed[i] == t;
            assert(n.completed[i] == t);
        }
        if t == k {
            assert(n.completed[s.completed.len() as int] == k);
        }
    }
    assert(n.completed.no_duplicates()) by {
        assert forall|i: int, j: int|
            0 <= i < n.completed.len() && 0 <= j < n.completed.len() && i != j implies n.completed[i]
            != n.completed[j] by {
            if i < s.completed.len() {
                assert(s.done(s.completed[i]));
            }
            if j < s.completed.len() {
                assert(s.done(s.completed[j]));
            }
        }
    }
    assert forall|v: int, t: nat| #[trigger] n.runs(v, t) implies t < n.claimed && !n.done(t) by {
        assert(s.runs(v, t));
        assert(v != w);
    }
    assert forall|w1: int, w2: int, t: nat|
        #![trigger n.runs(w1, t), n.runs(w2, t)]
        n.runs(w1, t) && n.runs(w2, t) implies w1 == w2 by {
        assert(s.runs(w1, t) && s.runs(w2, t));
    }
    assert forall|t: nat| #[trigger] n.done(t) implies t < n.claimed by {
        if t != k {
            assert(s.done(t));
        }
    }
    assert forall|t: nat| t < n.claimed implies #[trigger] n.done(t) || n.in_flight(t) by {
        if t != k && !s.done(t) {
            let v = choose|v: int| s.runs(v, t);
            assert(v != w);
            assert(n.runs(v, t));
        }
    }
    assert forall|v: int|
        0 <= v < n.workers.len() && #[trigger] n.workers[v] is Terminated implies !n.accepting
        && n.claimed == n.submitted.len() by {
        assert(v != w);
        assert(s.workers[v] is Terminated);
    }
}

/// Closing the pool keeps the state reachable.
pub proof fn lemma_close_inv<J>(s: PoolState<J>)
    requires
        s.inv(),
    ensures
        s.close().inv(),
{
    let n = s.close();
    assert forall|w: int, t: nat| #[trigger] n.runs(w, t) implies t < n.claimed && !n.done(t) by {
        assert(s.runs(w, t));
    }
    assert forall|w1: int, w2: int, t: nat|
        #![trigger n.runs(w1, t), n.runs(w2, t)]
        n.runs(w1, t) && n.runs(w2, t) implies w1 == w2 by {
        assert(s.runs(w1, t) && s.runs(w2, t));
    }
    assert forall|t: nat| #[trigger] n.done(t) implies t < n.claimed by {
        assert(s.done(t));
    }
    assert forall|t: nat| t < n.claimed implies #[trigger] n.done(t) || n.in_flight(t) by {
        if !s.done(t) {
            let v = choose|v: int| s.runs(v, t);
            assert(n.runs(v, t));
        }
    }
    assert forall|v: int|
        0 <= v < n.workers.len() && #[trigger] n.workers[v] is Terminated implies !n.accepting
        && n.claimed == n.submitted.len() by {
        assert(s.workers[v] is Terminated);
    }
}

/// Every step that the protocol allows leads from a reachable state to a
/// reachable state.
pub proof fn lemma_step_inv<J>(s: PoolState<J>, e: Event<J>)
    requires
        s.inv(),
        s.enabled(e),
    ensures
        s.step(e).inv(),
{
    match e {
        Event::Submit { job } => {
            lemma_submit_inv(s, job);
        },
        Event::Claim { worker } => {
            lemma_claim_inv(s, worker);
        },
        Event::Finish { worker } => {
            lemma_finish_inv(s, worker);
        },
        Event::Close => {
            lemma_close_inv(s);
        },
    }
}

} // verus!
