//! A fixed-size worker pool, as a verified dispatch protocol.
//!
//! A [`ThreadPool`] owns one FIFO queue of jobs, the [`DispatchChannel`], and
//! a fixed set of [`Worker`]s. Callers hand jobs in with
//! [`ThreadPool::execute`]. Each worker goes round a loop: it asks for the
//! next job with [`ThreadPool::claim`], runs it, and reports its end with
//! [`ThreadPool::finish`]. [`ThreadPool::shutdown`] closes the queue and hands
//! out the thread handle of every worker, so that the caller can wait for
//! each of them; the workers drain what is still queued and then leave their
//! loops.
//!
//! # The pool and its embedding
//!
//! The pool itself starts no thread and never blocks. It decides: which job a
//! worker gets, whether a worker has to wait or to leave, which handles are
//! to be waited on and in which order. The embedding acts: it starts one
//! thread per worker and attaches its handle with [`ThreadPool::attach`],
//! keeps the pool behind a lock, puts a worker to sleep when its claim
//! resolves to [`Claim::Wait`], runs the jobs outside of the lock, and joins
//! the handles that `shutdown` hands out. Every operation takes the pool by
//! exclusive reference, so a claim is one indivisible step, and no two
//! workers ever get the same job.
//!
//! # What is proved
//!
//! The contracts speak of the [`PoolState`] of a pool, which also remembers
//! its history: the jobs submitted so far, how many of them were handed out,
//! and which have run to their end. The module [`laws`] shows what follows
//! for every order in which callers and workers may take their steps: no job
//! runs twice, no job is lost, and once every worker has terminated each job
//! that was ever submitted has run exactly once.
//!
//! # Jobs that fail
//!
//! The pool hears of a job again only when its worker calls `finish`. A job
//! that panics takes the thread of its worker with it: that worker stays
//! [`WorkerState::Executing`] for good, its slot is lost to the pool, and the
//! job is neither run again nor handed to another worker. Such a pool never
//! counts as terminated. The handle of the dead thread still comes out of
//! `shutdown`, so whoever joins it learns of the failure.
pub mod channel;
pub mod laws;
pub mod protocol;
pub mod threadpool;
pub mod worker;

pub use channel::{ChannelState, DispatchChannel};
pub use protocol::{Activity, Claim, Event, PoolState};
pub use threadpool::ThreadPool;
pub use worker::{Worker, WorkerState};
