//! The pool: a queue of jobs, a fixed set of workers, and the operations of
//! the dispatch protocol on them.
use crate::channel::DispatchChannel;
use crate::laws::lemma_exactly_once_when_terminated;
use crate::protocol::{
    lemma_claim_inv, lemma_close_inv, lemma_finish_inv, lemma_init_inv, lemma_submit_inv, Claim,
    PoolState,
};
use crate::worker::{Worker, WorkerState};
use vstd::prelude::*;

verus! {

/// A fixed-size pool of workers that share one FIFO queue of jobs of type `J`.
/// `H` is the type of the handle by which the embedding waits for a worker's
/// thread.
pub struct ThreadPool<J, H> {
    workers: Vec<Worker<H>>,
    channel: DispatchChannel<J>,
    state: Ghost<PoolState<J>>,
}

impl<J, H> View for ThreadPool<J, H> {
    type V = PoolState<J>;

    /// The state of the protocol, with its history.
    closed spec fn view(&self) -> PoolState<J> {
        self.state@
    }
}

/// The handles that are present in `slots`, in the order of their slots.
pub open spec fn attached<H>(slots: Seq<Option<H>>) -> Seq<H>
    decreases slots.len(),
{
    if slots.len() == 0 {
        Seq::empty()
    } else {
        let before = attached(slots.drop_last());
        match slots.last() {
            Some(handle) => before.push(handle),
            None => before,
        }
    }
}

/// No more handles are present than there are slots.
pub proof fn lemma_attached_len<H>(slots: Seq<Option<H>>)
    ensures
        attached(slots).len() <= slots.len(),
    decreases slots.len(),
{
    if slots.len() > 0 {
        lemma_attached_len(slots.drop_last());
    }
}

/// Where no slot holds a handle, none is present.
pub proof fn lemma_attached_none<H>(slots: Seq<Option<H>>)
    requires
        forall|i: int| 0 <= i < slots.len() ==> slots[i] is None,
    ensures
        attached(slots) == Seq::<H>::empty(),
    decreases slots.len(),
{
    if slots.len() > 0 {
        lemma_attached_none(slots.drop_last());
    }
}

/// Where every slot holds a handle, all of them are present, slot by slot.
pub proof fn lemma_attached_all<H>(slots: Seq<Option<H>>)
    requires
        forall|i: int| 0 <= i < slots.len() ==> slots[i] is Some,
    ensures
        attached(slots).len() == slots.len(),
        forall|i: int| 0 <= i < slots.len() ==> slots[i] == Some(#[trigger] attached(slots)[i]),
    decreases slots.len(),
{
    if slots.len() > 0 {
        lemma_attached_all(slots.drop_last());
    }
}

impl<J, H> ThreadPool<J, H> {
    /// The workers, in construction order.
    pub closed spec fn workers(&self) -> Seq<Worker<H>> {
        self.workers@
    }

    /// The thread handle of each worker, in construction order; `None` where
    /// no handle is attached.
    pub open spec fn threads(&self) -> Seq<Option<H>> {
        Seq::new(self.workers().len(), |i: int| self.workers()[i].thread)
    }

    /// Every worker has its thread handle.
    pub open spec fn all_attached(&self) -> bool {
        forall|i: int| 0 <= i < self.threads().len() ==> self.threads()[i] is Some
    }

    /// No worker has a thread handle.
    pub open spec fn none_attached(&self) -> bool {
        forall|i: int| 0 <= i < self.threads().len() ==> self.threads()[i] is None
    }

    /// The pool is consistent: its state is one that a pool can reach, worker
    /// `i` has id `i` and shows the state that the protocol gives it, and the
    /// queue holds the pending jobs.
    pub closed spec fn wf(&self) -> bool {
        &&& self@.inv()
        &&& self.workers@.len() == self@.workers.len()
        &&& forall|i: int|
            0 <= i < self.workers@.len() ==> (#[trigger] self.workers@[i]).id == i
                && self.workers@[i].state == WorkerState::of(self@.workers[i])
        &&& self.channel@ == self@.channel()
    }

    /// A pool of `size` idle workers with ids `0..size`, an empty queue, and
    /// no thread handle attached yet.
    pub fn new(size: usize) -> (pool: Self)
        requires
            size != 0,
        ensures
            pool.wf(),
            pool@ == PoolState::<J>::init(size as nat),
            pool.workers().len() == size,
            forall|i: int|
                0 <= i < size ==> #[trigger] pool.workers()[i] == (Worker {
                    id: i as usize,
                    thread: None::<H>,
                    state: WorkerState::Idle,
                }),
    {
        let mut workers: Vec<Worker<H>> = Vec::with_capacity(size);
        let mut id: usize = 0;
        while id < size
            invariant
                id <= size,
                workers@.len() == id,
                forall|i: int|
                    0 <= i < id ==> (#[trigger] workers@[i]).id == i && workers@[i].thread is None
                        && workers@[i].state == WorkerState::Idle,
            decreases size - id,
        {
            workers.push(Worker::new(id));
            id += 1;
        }
        let pool = ThreadPool {
            workers,
            channel: DispatchChannel::new(),
            state: Ghost(PoolState::init(size as nat)),
        };
        proof {
            lemma_init_inv::<J>(size as nat);
            assert(pool@.pending() =~= Seq::<J>::empty());
        }
        pool
    }

    /// A pool of `size` workers as [`ThreadPool::new`] makes it, or `None`
    /// for a size of zero: a pool has at least one worker.
    pub fn try_new(size: usize) -> (made: Option<Self>)
        ensures
            size == 0 <==> made is None,
            made matches Some(pool) ==> pool.wf() && pool@ == PoolState::<J>::init(size as nat)
                && pool.workers().len() == size && forall|i: int|
                0 <= i < size ==> #[trigger] pool.workers()[i] == (Worker {
                    id: i as usize,
                    thread: None::<H>,
                    state: WorkerState::Idle,
                }),
    {
        if size == 0 {
            None
        } else {
            Some(Self::new(size))
        }
    }

    /// Hands `job` to the pool: it joins the queue behind the jobs that wait
    /// there.
    pub fn execute(&mut self, job: J)
        requires
            old(self).wf(),
            old(self)@.accepting,
        ensures
            final(self).wf(),
            final(self)@ == old(self)@.submit(job),
            final(self).threads() == old(self).threads(),
    {
        proof {
            lemma_submit_inv(self@, job);
            assert(self@.submit(job).pending() =~= self@.pending().push(job));
        }
        self.state = Ghost(self.state@.submit(job));
        let sent = self.channel.send(job);
        assert(sent is Ok);
    }

    /// Hands `job` to the pool if it still accepts jobs; a pool that was shut
    /// down gives the job back and stays as it is, so no job is ever dropped
    /// in silence.
    pub fn try_execute(&mut self, job: J) -> (result: Result<(), J>)
        requires
            old(self).wf(),
        ensures
            final(self).wf(),
            final(self).threads() == old(self).threads(),
            old(self)@.accepting ==> result is Ok && final(self)@ == old(self)@.submit(job),
            !old(self)@.accepting ==> result == Err::<(), J>(job) && final(self)@ == old(self)@,
    {
        if self.channel.is_open() {
            self.execute(job);
            Ok(())
        } else {
            Err(job)
        }
    }

    /// Worker `id` asks for the next job. It gets the oldest pending job and
    /// executes from now on; or it is told to wait, while the queue is empty
    /// and the pool accepts jobs; or it is told that the pool is closed and
    /// drained, and is terminated from now on.
    pub fn claim(&mut self, id: usize) -> (outcome: Claim<J>)
        requires
            old(self).wf(),
            old(self)@.idle(id as int),
        ensures
            final(self).wf(),
            outcome == old(self)@.claim_outcome(),
            final(self)@ == old(self)@.claim(id as int),
            final(self).threads() == old(self).threads(),
    {
        let outcome = self.channel.claim();
        proof {
            lemma_claim_inv(self@, id as int);
        }
        self.workers[id].claimed(&outcome);
        self.state = Ghost(self.state@.claim(id as int));
        proof {
            assert(self.channel@.pending =~= self@.pending());
            assert(self.threads() =~= old(self).threads());
        }
        outcome
    }

    /// Worker `id` reports that the job it held has run to its end: the job
    /// counts as completed and the worker is idle again.
    pub fn finish(&mut self, id: usize)
        requires
            old(self).wf(),
            old(self)@.busy(id as int),
        ensures
            final(self).wf(),
            final(self)@ == old(self)@.finish(id as int),
            final(self).threads() == old(self).threads(),
    {
        proof {
            lemma_finish_inv(self@, id as int);
        }
        self.workers[id].finished();
        self.state = Ghost(self.state@.finish(id as int));
        proof {
            assert(self.threads() =~= old(self).threads());
        }
    }

    /// Gives worker `id` the handle of the thread that serves it.
    pub fn attach(&mut self, id: usize, thread: H)
        requires
            old(self).wf(),
            id < old(self)@.size(),
            old(self).threads()[id as int] is None,
        ensures
            final(self).wf(),
            final(self)@ == old(self)@,
            final(self).threads() == old(self).threads().update(id as int, Some(thread)),
    {
        self.workers[id].thread = Some(thread);
        proof {
            assert(self.threads() =~= old(self).threads().update(id as int, Some(thread)));
        }
    }

    /// Stops the pool from accepting jobs and hands out the thread handle of
    /// every worker that has one, in construction order, for the caller to
    /// wait on. No worker keeps a handle, so a second call hands out none.
    /// The jobs that are still pending stay in the queue for the workers to
    /// drain.
    pub fn shutdown(&mut self) -> (handles: Vec<H>)
        requires
            old(self).wf(),
        ensures
            final(self).wf(),
            final(self)@ == old(self)@.close(),
            handles@ == attached(old(self).threads()),
            handles@.len() <= old(self)@.size(),
            old(self).all_attached() ==> handles@.len() == old(self)@.size() && forall|i: int|
                0 <= i < handles@.len() ==> old(self).threads()[i] == Some(#[trigger] handles@[i]),
            old(self).none_attached() ==> handles@.len() == 0,
            final(self).threads() == Seq::new(old(self)@.size(), |i: int| None::<H>),
    {
        proof {
            lemma_close_inv(self@);
            lemma_attached_len(old(self).threads());
            if old(self).all_attached() {
                lemma_attached_all(old(self).threads());
            }
            if old(self).none_attached() {
                lemma_attached_none(old(self).threads());
            }
        }
        self.channel.close();
        self.state = Ghost(self.state@.close());
        let ghost before = old(self).threads();
        let mut handles: Vec<H> = Vec::new();
        let n = self.workers.len();
        let mut i: usize = 0;
        while i < n
            invariant
                i <= n,
                n == self.workers@.len(),
                n == before.len(),
                self.wf(),
                self@ == old(self)@.close(),
                handles@ == attached(before.take(i as int)),
                forall|k: int| 0 <= k < i ==> (#[trigger] self.workers@[k]).thread is None,
                forall|k: int| i <= k < n ==> (#[trigger] self.workers@[k]).thread == before[k],
            decreases n - i,
        {
            let taken = self.workers[i].take_thread();
            proof {
                assert(before.take(i + 1).drop_last() =~= before.take(i as int));
                assert(before.take(i + 1).last() == before[i as int]);
            }
            if let Some(thread) = taken {
                handles.push(thread);
            }
            i += 1;
        }
        proof {
            assert(before.take(n as int) =~= before);
            assert(self.threads() =~= Seq::new(old(self)@.size(), |i: int| None::<H>));
        }
        handles
    }

    /// The number of workers, fixed when the pool was made.
    pub fn size(&self) -> (n: usize)
        requires
            self.wf(),
        ensures
            n == self@.size(),
            n >= 1,
    {
        self.workers.len()
    }

    /// Whether the pool still accepts jobs.
    pub fn is_accepting(&self) -> (b: bool)
        requires
            self.wf(),
        ensures
            b == self@.accepting,
    {
        self.channel.is_open()
    }

    /// The number of jobs that wait for a worker.
    pub fn pending(&self) -> (n: usize)
        requires
            self.wf(),
        ensures
            n == self@.pending().len(),
    {
        self.channel.len()
    }

    /// Worker `id`, with its id, its thread handle if one is attached, and
    /// the state of its loop.
    pub fn worker(&self, id: usize) -> (w: &Worker<H>)
        requires
            self.wf(),
            id < self@.size(),
        ensures
            *w == self.workers()[id as int],
            w.id == id,
            w.state == WorkerState::of(self@.workers[id as int]),
            w.thread == self.threads()[id as int],
    {
        &self.workers[id]
    }

    /// Whether every worker has left its loop, which is when teardown is
    /// complete. By then no job is pending or in flight, and every job that
    /// was ever submitted has run exactly once.
    pub fn is_terminated(&self) -> (b: bool)
        requires
            self.wf(),
        ensures
            b == self@.all_terminated(),
            b ==> self@.pending().len() == 0,
            b ==> forall|t: nat| !self@.in_flight(t),
            b ==> forall|t: nat| t < self@.submitted.len() ==> self@.executions(t) == 1,
            b ==> self@.executed().to_multiset() == self@.submitted.to_multiset(),
    {
        let n = self.workers.len();
        let mut i: usize = 0;
        while i < n
            invariant
                i <= n,
                n == self.workers@.len(),
                self.wf(),
                forall|k: int| 0 <= k < i ==> self@.workers[k] is Terminated,
            decreases n - i,
        {
            if self.workers[i].state != WorkerState::Terminated {
                assert(!(self@.workers[i as int] is Terminated));
                return false;
            }
            i += 1;
        }
        proof {
            lemma_exactly_once_when_terminated(self@);
        }
        true
    }

    /// A consistent pool is in a state that a pool can reach; worker `i` has
    /// id `i` and shows the state that goes with its activity.
    pub proof fn lemma_wf(self)
        requires
            self.wf(),
        ensures
            self@.inv(),
            self.workers().len() == self@.size(),
            self.threads().len() == self@.size(),
            forall|i: int|
                0 <= i < self@.size() ==> (#[trigger] self.workers()[i]).id == i
                    && self.workers()[i].state == WorkerState::of(self@.workers[i]),
    {
    }
}

} // verus!
