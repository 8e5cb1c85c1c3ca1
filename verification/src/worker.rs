//! One pool slot and its life cycle.
use crate::protocol::{Activity, Claim};
use vstd::prelude::*;

verus! {

/// Where a worker stands in its claim-execute loop.
#[derive(Clone, Copy, Debug, PartialEq, Eq, Structural)]
pub enum WorkerState {
    /// Waiting for a job, or about to ask for one.
    Idle,
    /// Running a job it has claimed.
    Executing,
    /// Has seen the queue closed and drained, and left its loop for good.
    Terminated,
}

impl WorkerState {
    /// The state that shows for a worker with activity `a`.
    pub open spec fn of(a: Activity) -> WorkerState {
        match a {
            Activity::Idle => WorkerState::Idle,
            Activity::Executing { ticket } => WorkerState::Executing,
            Activity::Terminated => WorkerState::Terminated,
        }
    }

    /// The state of an idle worker after its claim resolved to `outcome`.
    pub open spec fn after_claim<J>(outcome: Claim<J>) -> WorkerState {
        match outcome {
            Claim::Job(job) => WorkerState::Executing,
            Claim::Wait => WorkerState::Idle,
            Claim::Closed => WorkerState::Terminated,
        }
    }
}

/// One slot of the pool: a small integer id, kept for diagnostics, the handle
/// of the thread that serves the slot, and the state of its loop.
#[derive(Debug)]
pub struct Worker<H> {
    pub id: usize,
    pub thread: Option<H>,
    pub state: WorkerState,
}

impl<H> Worker<H> {
    /// A fresh worker: idle, with no thread handle attached yet.
    pub fn new(id: usize) -> (w: Self)
        ensures
            w.id == id,
            w.thread is None,
            w.state == WorkerState::Idle,
    {
        Worker { id, thread: None, state: WorkerState::Idle }
    }

    /// Records what the worker's claim resolved to: with a job it executes,
    /// told to wait it stays idle, and on a closed queue it terminates.
    pub fn claimed<J>(&mut self, outcome: &Claim<J>)
        requires
            old(self).state == WorkerState::Idle,
        ensures
            final(self).state == WorkerState::after_claim(*outcome),
            final(self).id == old(self).id,
            final(self).thread == old(self).thread,
    {
        match outcome {
            Claim::Job(_) => {
                self.state = WorkerState::Executing;
            },
            Claim::Wait => {},
            Claim::Closed => {
                self.state = WorkerState::Terminated;
            },
        }
    }

    /// Records that the job the worker held has run to its end.
    pub fn finished(&mut self)
        requires
            old(self).state == WorkerState::Executing,
        ensures
            final(self).state == WorkerState::Idle,
            final(self).id == old(self).id,
            final(self).thread == old(self).thread,
    {
        self.state = WorkerState::Idle;
    }

    /// Takes the thread handle out, leaving none behind: a handle leaves its
    /// worker at most once.
    pub fn take_thread(&mut self) -> (thread: Option<H>)
        ensures
            thread == old(self).thread,
            final(self).thread is None,
            final(self).id == old(self).id,
            final(self).state == old(self).state,
    {
        self.thread.take()
    }
}

} // verus!
