//! The dispatch channel: the one FIFO queue through which jobs reach the
//! workers.
use crate::protocol::Claim;
use std::collections::VecDeque;
use vstd::prelude::*;

verus! {

/// What a channel holds.
#[verifier::ext_equal]
pub struct ChannelState<J> {
    /// Whether jobs may still be sent.
    pub open: bool,
    /// The jobs that wait for a worker, oldest first.
    pub pending: Seq<J>,
}

impl<J> ChannelState<J> {
    /// What a claim on a channel in this state resolves to: the oldest job if
    /// one waits; else a wait while the channel is open, and the news that it
    /// is closed once it is.
    pub open spec fn claim_outcome(self) -> Claim<J> {
        if self.pending.len() > 0 {
            Claim::Job(self.pending.first())
        } else if self.open {
            Claim::Wait
        } else {
            Claim::Closed
        }
    }

    /// The state after a claim: the oldest job, if there was one, is gone.
    pub open spec fn after_claim(self) -> Self {
        if self.pending.len() > 0 {
            ChannelState { pending: self.pending.skip(1), ..self }
        } else {
            self
        }
    }
}

/// An unbounded FIFO queue of jobs that can be closed, once and for good.
/// Jobs that wait in it when it is closed can still be claimed.
pub struct DispatchChannel<J> {
    queue: VecDeque<J>,
    open: bool,
}

impl<J> View for DispatchChannel<J> {
    type V = ChannelState<J>;

    closed spec fn view(&self) -> ChannelState<J> {
        ChannelState { open: self.open, pending: self.queue@ }
    }
}

impl<J> DispatchChannel<J> {
    /// An open channel in which nothing waits.
    pub fn new() -> (channel: Self)
        ensures
            channel@ == (ChannelState { open: true, pending: Seq::<J>::empty() }),
    {
        DispatchChannel { queue: VecDeque::new(), open: true }
    }

    /// Puts `job` behind the jobs that wait. A closed channel takes nothing
    /// and gives the job back.
    pub fn send(&mut self, job: J) -> (sent: Result<(), J>)
        ensures
            old(self)@.open ==> sent is Ok && final(self)@ == (ChannelState {
                pending: old(self)@.pending.push(job),
                ..old(self)@
            }),
            !old(self)@.open ==> sent == Err::<(), J>(job) && final(self)@ == old(self)@,
    {
        if self.open {
            self.queue.push_back(job);
            Ok(())
        } else {
            Err(job)
        }
    }

    /// Takes the oldest job out, if one waits; says otherwise whether more
    /// may come.
    pub fn claim(&mut self) -> (outcome: Claim<J>)
        ensures
            outcome == old(self)@.claim_outcome(),
            final(self)@ == old(self)@.after_claim(),
    {
        match self.queue.pop_front() {
            Some(job) => {
                proof {
                    assert(self.queue@ =~= old(self).queue@.skip(1));
                }
                Claim::Job(job)
            },
            None => if self.open {
                Claim::Wait
            } else {
                Claim::Closed
            },
        }
    }

    /// Closes the channel. Closing a closed channel changes nothing.
    pub fn close(&mut self)
        ensures
            final(self)@ == (ChannelState { open: false, ..old(self)@ }),
    {
        self.open = false;
    }

    /// Whether jobs may still be sent.
    pub fn is_open(&self) -> (open: bool)
        ensures
            open == self@.open,
    {
        self.open
    }

    /// The number of jobs that wait.
    pub fn len(&self) -> (n: usize)
        ensures
            n == self@.pending.len(),
    {
        self.queue.len()
    }
}

} // verus!
