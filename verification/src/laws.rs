//! What holds of every pool, whatever its callers and workers do and in
//! whatever order they do it.
//!
//! A trace is a sequence of events; the protocol admits it from a state when
//! each event is allowed in the state that the events before it lead to. Any
//! interleaving of the steps of several callers and workers is such a trace,
//! since every operation of the pool is one indivisible step.
use crate::protocol::{lemma_init_inv, lemma_step_inv, Activity, Event, PoolState};
use vstd::prelude::*;

verus! {

/// The tickets below `n`.
pub open spec fn tickets_below(n: nat) -> Set<nat> {
    Set::new(|t: nat| t < n)
}

/// There are `n` tickets below `n`.
pub proof fn lemma_tickets_below(n: nat)
    ensures
        tickets_below(n).finite(),
        tickets_below(n).len() == n,
    decreases n,
{
    if n == 0 {
        assert(tickets_below(n) =~= Set::empty());
    } else {
        lemma_tickets_below((n - 1) as nat);
        assert(tickets_below(n) =~= tickets_below((n - 1) as nat).insert((n - 1) as nat));
    }
}

/// Taking the items of a sequence in the order of a permutation of their
/// positions gives the same items, each as often as before.
pub proof fn lemma_permuted_items<J>(order: Seq<nat>, items: Seq<J>)
    requires
        order.no_duplicates(),
        order.len() == items.len(),
        forall|i: int| 0 <= i < order.len() ==> order[i] < items.len(),
        forall|t: nat| t < items.len() ==> order.contains(t),
    ensures
        Seq::new(order.len(), |i: int| items[order[i] as int]).to_multiset()
            == items.to_multiset(),
    decreases items.len(),
{
    broadcast use vstd::multiset::group_multiset_axioms;

    let picked = Seq::new(order.len(), |i: int| items[order[i] as int]);
    if items.len() == 0 {
        assert(picked =~= items);
    } else {
        let top = (items.len() - 1) as nat;
        assert(order.contains(top));
        let p = choose|p: int| 0 <= p < order.len() && order[p] == top;
        let fewer = order.remove(p);
        let front = items.drop_last();
        assert forall|t: nat| t < front.len() implies fewer.contains(t) by {
            assert(order.contains(t));
            let q = choose|q: int| 0 <= q < order.len() && order[q] == t;
            if q < p {
                assert(fewer[q] == t);
            } else {
                assert(fewer[q - 1] == t);
            }
        }
        assert forall|i: int| 0 <= i < fewer.len() implies fewer[i] < front.len() by {
            if i < p {
                assert(order[i] != order[p]);
            } else {
                assert(order[i + 1] != order[p]);
            }
        }
        assert(fewer.no_duplicates());
        lemma_permuted_items(fewer, front);
        let rest = Seq::new(fewer.len(), |i: int| front[fewer[i] as int]);
        assert(picked.remove(p) =~= rest);
        picked.to_multiset_ensures();
        front.to_multiset_ensures();
        assert(picked[p] == items.last());
        assert(picked.contains(items.last()));
        assert(picked.to_multiset() =~= rest.to_multiset().insert(items.last()));
        assert(front.push(items.last()) =~= items);
    }
}

/// A trace that the protocol admits leads from a reachable state to a
/// reachable state.
pub proof fn lemma_run_inv<J>(s: PoolState<J>, trace: Seq<Event<J>>)
    requires
        s.inv(),
        s.admits(trace),
    ensures
        s.run(trace).inv(),
    decreases trace.len(),
{
    if trace.len() > 0 {
        lemma_step_inv(s, trace[0]);
        lemma_run_inv(s.step(trace[0]), trace.skip(1));
    }
}

/// History only grows: along a trace the number of workers stays, the jobs
/// submitted so far stay where they are, no ticket is handed out again, and
/// a job that is done stays done.
pub proof fn lemma_run_extends<J>(s: PoolState<J>, trace: Seq<Event<J>>)
    requires
        s.inv(),
        s.admits(trace),
    ensures
        s.run(trace).size() == s.size(),
        s.submitted.is_prefix_of(s.run(trace).submitted),
        s.claimed <= s.run(trace).claimed,
        s.completed.is_prefix_of(s.run(trace).completed),
    decreases trace.len(),
{
    if trace.len() > 0 {
        let n = s.step(trace[0]);
        lemma_step_inv(s, trace[0]);
        lemma_run_extends(n, trace.skip(1));
        assert(s.submitted.is_prefix_of(n.submitted));
        assert(s.completed.is_prefix_of(n.completed));
    }
}

/// Every job is accounted for: a job that was submitted waits in the queue,
/// or is in flight on a worker, or is done, and never two of these at once.
/// The jobs that wait are the most recent ones, in submission order.
pub proof fn lemma_every_job_accounted_for<J>(s: PoolState<J>, t: nat)
    requires
        s.inv(),
    ensures
        t < s.submitted.len() ==> s.waiting(t) || s.in_flight(t) || s.done(t),
        !(s.waiting(t) && s.in_flight(t)),
        !(s.waiting(t) && s.done(t)),
        !(s.in_flight(t) && s.done(t)),
        s.waiting(t) ==> s.pending()[t - s.claimed] == s.submitted[t as int],
        s.pending().len() == s.submitted.len() - s.claimed,
{
    if s.in_flight(t) {
        let w = choose|w: int| s.runs(w, t);
        assert(s.runs(w, t));
    }
    if t < s.claimed {
        assert(s.done(t) || s.in_flight(t));
    }
    if s.done(t) {
        assert(t < s.claimed);
    }
}

/// No job runs twice: in every reachable state each ticket was completed at
/// most once, and only tickets of submitted jobs were completed at all.
pub proof fn lemma_at_most_once<J>(s: PoolState<J>, t: nat)
    requires
        s.inv(),
    ensures
        s.executions(t) <= 1,
        s.executions(t) == 1 <==> s.done(t),
        s.done(t) ==> t < s.submitted.len(),
{
    s.completed.lemma_multiset_has_no_duplicates();
    s.completed.to_multiset_ensures();
}

/// Once every worker has terminated, nothing is pending, nothing is in
/// flight, and every job that was ever submitted has run exactly once.
pub proof fn lemma_exactly_once_when_terminated<J>(s: PoolState<J>)
    requires
        s.inv(),
        s.all_terminated(),
    ensures
        !s.accepting,
        s.pending() == Seq::<J>::empty(),
        forall|t: nat| !s.in_flight(t),
        forall|t: nat| t < s.submitted.len() ==> s.executions(t) == 1,
        forall|t: nat| t >= s.submitted.len() ==> s.executions(t) == 0,
        s.completed.len() == s.submitted.len(),
        s.executed().to_multiset() == s.submitted.to_multiset(),
{
    assert(s.workers[0] is Terminated);
    assert(s.claimed == s.submitted.len());
    assert(s.pending() =~= Seq::<J>::empty());
    assert forall|t: nat| !s.in_flight(t) by {
        if s.in_flight(t) {
            let w = choose|w: int| s.runs(w, t);
            assert(s.workers[w] is Terminated);
        }
    }
    assert forall|t: nat| t < s.submitted.len() implies s.executions(t) == 1 by {
        assert(s.done(t) || s.in_flight(t));
        lemma_at_most_once(s, t);
    }
    assert forall|t: nat| t >= s.submitted.len() implies s.executions(t) == 0 by {
        lemma_at_most_once(s, t);
    }
    assert(s.completed.len() == s.submitted.len()) by {
        assert forall|t: nat| s.completed.to_set().contains(t) <==> tickets_below(
            s.claimed,
        ).contains(t) by {
            if t < s.claimed {
                assert(s.done(t) || s.in_flight(t));
            }
            if s.completed.contains(t) {
                assert(s.done(t));
            }
        }
        assert(s.completed.to_set() =~= tickets_below(s.claimed));
        s.completed.unique_seq_to_set();
        lemma_tickets_below(s.claimed);
    }
    assert forall|i: int| 0 <= i < s.completed.len() implies s.completed[i]
        < s.submitted.len() by {
        assert(s.done(s.completed[i]));
    }
    assert forall|t: nat| t < s.submitted.len() implies s.completed.contains(t) by {
        assert(s.done(t) || s.in_flight(t));
    }
    lemma_permuted_items(s.completed, s.submitted);
}

/// However callers and workers interleave: when a pool of `size` workers has
/// gone through a trace that leaves every worker terminated, each job that
/// the trace submitted has run exactly once, and none is left behind.
pub proof fn lemma_teardown_ran_every_job_once<J>(size: nat, trace: Seq<Event<J>>)
    requires
        size >= 1,
        PoolState::<J>::init(size).admits(trace),
        PoolState::<J>::init(size).run(trace).all_terminated(),
    ensures
        ({
            let end = PoolState::<J>::init(size).run(trace);
            &&& end.pending() == Seq::<J>::empty()
            &&& end.completed.len() == end.submitted.len()
            &&& end.executed().to_multiset() == end.submitted.to_multiset()
            &&& forall|t: nat| t < end.submitted.len() ==> end.executions(t) == 1
            &&& forall|t: nat| t >= end.submitted.len() ==> end.executions(t) == 0
        }),
{
    let start = PoolState::<J>::init(size);
    lemma_init_inv::<J>(size);
    lemma_run_inv(start, trace);
    lemma_exactly_once_when_terminated(start.run(trace));
}

/// However callers and workers interleave, no job of a pool of `size`
/// workers runs more than once.
pub proof fn lemma_never_twice<J>(size: nat, trace: Seq<Event<J>>, t: nat)
    requires
        size >= 1,
        PoolState::<J>::init(size).admits(trace),
    ensures
        PoolState::<J>::init(size).run(trace).executions(t) <= 1,
{
    let start = PoolState::<J>::init(size);
    lemma_init_inv::<J>(size);
    lemma_run_inv(start, trace);
    lemma_at_most_once(start.run(trace), t);
}

/// Teardown waits for the jobs in flight: if a worker is executing a job,
/// every trace that goes on to leave all workers terminated has that job
/// run to its end first.
pub proof fn lemma_teardown_waits_for_in_flight<J>(
    s: PoolState<J>,
    w: int,
    t: nat,
    trace: Seq<Event<J>>,
)
    requires
        s.inv(),
        s.runs(w, t),
        s.admits(trace),
        s.run(trace).all_terminated(),
    ensures
        s.run(trace).done(t),
        !s.done(t),
{
    let end = s.run(trace);
    lemma_run_inv(s, trace);
    lemma_run_extends(s, trace);
    lemma_exactly_once_when_terminated(end);
    assert(t < end.claimed);
    assert(end.done(t) || end.in_flight(t));
}

/// Closing a pool twice is closing it once.
pub proof fn lemma_close_is_idempotent<J>(s: PoolState<J>)
    ensures
        s.close().close() == s.close(),
{
}

/// No worker waits on a closed pool: its claim takes the oldest pending job
/// or, if there is none, tells it to leave.
pub proof fn lemma_closed_pool_never_waits<J>(s: PoolState<J>, w: int)
    requires
        s.inv(),
        !s.accepting,
        s.idle(w),
    ensures
        !(s.claim_outcome() is Wait),
        s.claim_outcome() is Closed <==> s.pending().len() == 0,
        s.claim_outcome() is Job ==> s.claim(w).busy(w) && s.claim(w).pending()
            == s.pending().skip(1),
        s.claim_outcome() is Closed ==> s.claim(w).workers[w] is Terminated,
{
    if s.pending().len() > 0 {
        assert(s.claim(w).pending() =~= s.pending().skip(1));
    }
}

/// After teardown nothing runs any more: once every worker has terminated,
/// the protocol admits no submission, no claim and no end of a job, and
/// whatever trace it does admit leaves the state as it is.
pub proof fn lemma_nothing_after_teardown<J>(s: PoolState<J>, trace: Seq<Event<J>>)
    requires
        s.inv(),
        s.all_terminated(),
        s.admits(trace),
    ensures
        s.run(trace) == s,
        forall|i: int| 0 <= i < trace.len() ==> trace[i] is Close,
    decreases trace.len(),
{
    if trace.len() > 0 {
        let e = trace[0];
        assert(s.workers[0] is Terminated);
        match e {
            Event::Submit { job } => {
                assert(false);
            },
            Event::Claim { worker } => {
                assert(s.workers[worker] is Terminated);
                assert(false);
            },
            Event::Finish { worker } => {
                assert(s.workers[worker] is Terminated);
                assert(false);
            },
            Event::Close => {
                assert(s.close() =~= s);
            },
        }
        lemma_nothing_after_teardown(s, trace.skip(1));
        assert forall|i: int| 0 <= i < trace.len() implies trace[i] is Close by {
            if i > 0 {
                assert(trace.skip(1)[i - 1] == trace[i]);
            }
        }
    }
}

/// The steps that a worker with activity `a` still has to take once the pool
/// is closed and drained: an idle worker claims once more and leaves; one
/// that executes finishes first.
pub open spec fn steps_to_leave(a: Activity) -> nat {
    match a {
        Activity::Idle => 1,
        Activity::Executing { ticket } => 2,
        Activity::Terminated => 0,
    }
}

/// The sum of [`steps_to_leave`] over `workers`.
pub open spec fn steps_to_leave_all(workers: Seq<Activity>) -> nat
    decreases workers.len(),
{
    if workers.len() == 0 {
        0
    } else {
        steps_to_leave_all(workers.drop_last()) + steps_to_leave(workers.last())
    }
}

/// The steps that the workers of a closed pool still have to take before all
/// of them have terminated: a claim and a finish for every pending job, and
/// what each worker owes by itself.
pub open spec fn steps_to_teardown<J>(s: PoolState<J>) -> nat {
    2 * s.pending().len() + steps_to_leave_all(s.workers)
}

/// Whether `e` is a step of a worker: a claim or the end of a job.
pub open spec fn worker_step<J>(e: Event<J>) -> bool {
    e is Claim || e is Finish
}

/// Whether worker `w` can take a step: an idle worker can claim, and one that
/// executes can finish.
pub open spec fn can_step<J>(s: PoolState<J>, w: int) -> bool {
    s.enabled(Event::Claim { worker: w }) || s.enabled(Event::Finish { worker: w })
}

/// Changing what one worker does changes the sum by the difference for that
/// worker.
pub proof fn lemma_steps_to_leave_update(workers: Seq<Activity>, w: int, a: Activity)
    requires
        0 <= w < workers.len(),
    ensures
        steps_to_leave_all(workers.update(w, a)) + steps_to_leave(workers[w])
            == steps_to_leave_all(workers) + steps_to_leave(a),
    decreases workers.len(),
{
    let changed = workers.update(w, a);
    if w == workers.len() - 1 {
        assert(changed.drop_last() =~= workers.drop_last());
    } else {
        lemma_steps_to_leave_update(workers.drop_last(), w, a);
        assert(changed.drop_last() =~= workers.drop_last().update(w, a));
    }
}

/// Nothing is owed exactly when every worker has terminated.
pub proof fn lemma_steps_to_leave_zero(workers: Seq<Activity>)
    ensures
        steps_to_leave_all(workers) == 0 <==> forall|w: int|
            0 <= w < workers.len() ==> workers[w] is Terminated,
    decreases workers.len(),
{
    if workers.len() > 0 {
        let front = workers.drop_last();
        lemma_steps_to_leave_zero(front);
        if steps_to_leave_all(workers) == 0 {
            assert forall|w: int| 0 <= w < workers.len() implies workers[w] is Terminated by {
                if w < front.len() {
                    assert(front[w] is Terminated);
                }
            }
        } else if steps_to_leave_all(front) != 0 {
            let w = choose|w: int| 0 <= w < front.len() && !(front[w] is Terminated);
            assert(!(workers[w] is Terminated));
        }
    }
}

/// On a closed pool every step of a worker is one step towards teardown.
pub proof fn lemma_worker_step_counts<J>(s: PoolState<J>, e: Event<J>)
    requires
        s.inv(),
        !s.accepting,
        s.enabled(e),
        worker_step(e),
    ensures
        steps_to_teardown(s.step(e)) + 1 == steps_to_teardown(s),
        !s.step(e).accepting,
{
    match e {
        Event::Claim { worker } => {
            lemma_steps_to_leave_update(s.workers, worker, s.claim(worker).workers[worker]);
            assert(s.claim(worker).workers =~= s.workers.update(
                worker,
                s.claim(worker).workers[worker],
            ));
        },
        Event::Finish { worker } => {
            lemma_steps_to_leave_update(s.workers, worker, Activity::Idle);
        },
        _ => {},
    }
}

/// Teardown does not get stuck: on a closed pool, as long as some worker has
/// not terminated, some worker can take a step; no worker has to wait.
pub proof fn lemma_teardown_is_not_stuck<J>(s: PoolState<J>)
    requires
        s.inv(),
        !s.accepting,
        !s.all_terminated(),
    ensures
        steps_to_teardown(s) > 0,
        exists|w: int| can_step(s, w),
        !(s.claim_outcome() is Wait),
{
    let w = choose|w: int| 0 <= w < s.workers.len() && !(s.workers[w] is Terminated);
    assert(s.idle(w) || s.busy(w));
    assert(can_step(s, w));
    lemma_steps_to_leave_zero(s.workers);
}

/// Teardown comes to an end: on a closed pool, the workers have terminated
/// exactly when no step is left, and whatever steps the workers take, in
/// whatever order, each of them uses up one of the steps that were left.
pub proof fn lemma_teardown_ends<J>(s: PoolState<J>, trace: Seq<Event<J>>)
    requires
        s.inv(),
        !s.accepting,
        s.admits(trace),
        forall|i: int| 0 <= i < trace.len() ==> worker_step(#[trigger] trace[i]),
    ensures
        trace.len() + steps_to_teardown(s.run(trace)) == steps_to_teardown(s),
        trace.len() <= steps_to_teardown(s),
        steps_to_teardown(s) == 0 <==> s.all_terminated(),
    decreases trace.len(),
{
    lemma_steps_to_leave_zero(s.workers);
    if s.all_terminated() {
        assert(s.workers[0] is Terminated);
    }
    if trace.len() > 0 {
        let e = trace[0];
        lemma_step_inv(s, e);
        lemma_worker_step_counts(s, e);
        assert forall|i: int| 0 <= i < trace.skip(1).len() implies worker_step(
            #[trigger] trace.skip(1)[i],
        ) by {
            assert(trace.skip(1)[i] == trace[i + 1]);
        }
        lemma_teardown_ends(s.step(e), trace.skip(1));
    }
}

} // verus!
