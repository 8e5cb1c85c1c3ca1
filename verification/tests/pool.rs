use dead_pool::{Claim, ThreadPool, WorkerState};
use std::cell::Cell;
use std::rc::Rc;

/// Lets worker after worker take a turn until no idle worker gets a job any
/// more; returns the jobs in the order in which they were handed out.
fn drain(pool: &mut ThreadPool<u32, &'static str>) -> Vec<u32> {
    let mut out = Vec::new();
    let size = pool.size();
    let mut id = 0;
    let mut quiet = 0;
    while quiet < size {
        if pool.worker(id).state == WorkerState::Idle {
            match pool.claim(id) {
                Claim::Job(job) => {
                    out.push(job);
                    pool.finish(id);
                    quiet = 0;
                }
                Claim::Wait | Claim::Closed => quiet += 1,
            }
        } else {
            quiet += 1;
        }
        id = (id + 1) % size;
    }
    out
}

#[test]
fn test1() {
    let mut pool: ThreadPool<Box<dyn FnOnce()>, ()> = ThreadPool::new(4);
    for _ in 0..100 {
        pool.execute(Box::new(|| {
            println!("Working");
        }));
    }
    assert_eq!(pool.pending(), 100);
    let mut ran = 0;
    let mut turn = 0;
    loop {
        match pool.claim(turn % 4) {
            Claim::Job(job) => {
                job();
                ran += 1;
                pool.finish(turn % 4);
            }
            Claim::Wait => break,
            Claim::Closed => unreachable!(),
        }
        turn += 1;
    }
    assert_eq!(ran, 100);
    assert_eq!(pool.pending(), 0);
}

#[test]
fn new_pool_has_idle_workers_numbered_in_order() {
    for size in 1..=16 {
        let pool: ThreadPool<u32, ()> = ThreadPool::new(size);
        assert_eq!(pool.size(), size);
        assert!(pool.is_accepting());
        assert_eq!(pool.pending(), 0);
        assert!(!pool.is_terminated());
        for id in 0..size {
            let worker = pool.worker(id);
            assert_eq!(worker.id, id);
            assert_eq!(worker.state, WorkerState::Idle);
            assert!(worker.thread.is_none());
        }
    }
}

#[test]
fn pool_without_workers_is_not_made() {
    let made: Option<ThreadPool<u32, ()>> = ThreadPool::try_new(0);
    assert!(made.is_none());
}

#[test]
fn try_new_makes_the_pool_that_new_makes() {
    for size in 1..=5 {
        let pool: ThreadPool<u32, ()> = ThreadPool::try_new(size).unwrap();
        assert_eq!(pool.size(), size);
        assert!(pool.is_accepting());
        assert_eq!(pool.pending(), 0);
        for id in 0..size {
            assert_eq!(pool.worker(id).id, id);
            assert_eq!(pool.worker(id).state, WorkerState::Idle);
            assert!(pool.worker(id).thread.is_none());
        }
    }
}

#[test]
fn pool_of_one_worker() {
    let mut pool: ThreadPool<u32, ()> = ThreadPool::new(1);
    assert_eq!(pool.size(), 1);
    pool.execute(5);
    assert_eq!(pool.claim(0), Claim::Job(5));
    pool.finish(0);
    pool.shutdown();
    assert_eq!(pool.claim(0), Claim::Closed);
    assert!(pool.is_terminated());
}

#[test]
fn execute_queues_behind_waiting_jobs() {
    let mut pool: ThreadPool<u32, ()> = ThreadPool::new(2);
    pool.execute(10);
    assert_eq!(pool.pending(), 1);
    pool.execute(20);
    pool.execute(30);
    assert_eq!(pool.pending(), 3);
    assert_eq!(pool.claim(1), Claim::Job(10));
    assert_eq!(pool.pending(), 2);
    assert_eq!(pool.claim(0), Claim::Job(20));
    assert_eq!(pool.pending(), 1);
    pool.finish(1);
    assert_eq!(pool.claim(1), Claim::Job(30));
    assert_eq!(pool.pending(), 0);
}

#[test]
fn jobs_come_out_in_submission_order() {
    let mut pool: ThreadPool<u32, &'static str> = ThreadPool::new(3);
    for job in 0..50 {
        pool.execute(job);
    }
    let seen = drain(&mut pool);
    assert_eq!(seen, (0..50).collect::<Vec<u32>>());
}

#[test]
fn claim_makes_the_worker_execute() {
    let mut pool: ThreadPool<u32, ()> = ThreadPool::new(2);
    pool.execute(1);
    assert_eq!(pool.claim(0), Claim::Job(1));
    assert_eq!(pool.worker(0).state, WorkerState::Executing);
    assert_eq!(pool.worker(1).state, WorkerState::Idle);
    assert_eq!(pool.worker(0).id, 0);
}

#[test]
fn claim_on_an_empty_open_pool_waits() {
    let mut pool: ThreadPool<u32, ()> = ThreadPool::new(2);
    assert_eq!(pool.claim(0), Claim::Wait);
    assert_eq!(pool.worker(0).state, WorkerState::Idle);
    assert_eq!(pool.claim(0), Claim::Wait);
    pool.execute(3);
    assert_eq!(pool.claim(0), Claim::Job(3));
}

#[test]
fn claim_on_a_closed_and_drained_pool_terminates_the_worker() {
    let mut pool: ThreadPool<u32, ()> = ThreadPool::new(2);
    pool.shutdown();
    assert_eq!(pool.claim(1), Claim::Closed);
    assert_eq!(pool.worker(1).state, WorkerState::Terminated);
    assert_eq!(pool.worker(0).state, WorkerState::Idle);
    assert!(!pool.is_terminated());
    assert_eq!(pool.claim(0), Claim::Closed);
    assert!(pool.is_terminated());
}

#[test]
fn finish_makes_the_worker_idle_again() {
    let mut pool: ThreadPool<u32, ()> = ThreadPool::new(1);
    pool.execute(1);
    pool.execute(2);
    assert_eq!(pool.claim(0), Claim::Job(1));
    pool.finish(0);
    assert_eq!(pool.worker(0).state, WorkerState::Idle);
    assert_eq!(pool.pending(), 1);
    assert_eq!(pool.claim(0), Claim::Job(2));
}

#[test]
fn attach_gives_a_worker_its_handle() {
    let mut pool: ThreadPool<u32, &'static str> = ThreadPool::new(3);
    pool.attach(1, "b");
    assert_eq!(pool.worker(0).thread, None);
    assert_eq!(pool.worker(1).thread, Some("b"));
    assert_eq!(pool.worker(2).thread, None);
    assert_eq!(pool.worker(1).state, WorkerState::Idle);
    assert_eq!(pool.worker(1).id, 1);
}

#[test]
fn shutdown_hands_out_every_handle_in_construction_order() {
    let mut pool: ThreadPool<u32, &'static str> = ThreadPool::new(4);
    pool.attach(2, "c");
    pool.attach(0, "a");
    pool.attach(3, "d");
    pool.attach(1, "b");
    let handles = pool.shutdown();
    assert_eq!(handles, vec!["a", "b", "c", "d"]);
    assert!(!pool.is_accepting());
    for id in 0..4 {
        assert!(pool.worker(id).thread.is_none());
        assert_eq!(pool.worker(id).state, WorkerState::Idle);
    }
}

#[test]
fn shutdown_passes_over_workers_without_a_handle() {
    let mut pool: ThreadPool<u32, &'static str> = ThreadPool::new(4);
    pool.attach(3, "d");
    pool.attach(1, "b");
    assert_eq!(pool.shutdown(), vec!["b", "d"]);
}

#[test]
fn second_shutdown_hands_out_nothing() {
    let mut pool: ThreadPool<u32, &'static str> = ThreadPool::new(2);
    pool.attach(0, "a");
    pool.attach(1, "b");
    pool.execute(9);
    assert_eq!(pool.shutdown().len(), 2);
    assert_eq!(pool.shutdown(), Vec::<&'static str>::new());
    assert!(!pool.is_accepting());
    assert_eq!(pool.pending(), 1);
}

#[test]
fn pending_jobs_outlive_shutdown() {
    let mut pool: ThreadPool<u32, &'static str> = ThreadPool::new(2);
    for job in 0..5 {
        pool.execute(job);
    }
    pool.shutdown();
    assert_eq!(pool.pending(), 5);
    assert_eq!(drain(&mut pool), vec![0, 1, 2, 3, 4]);
    assert_eq!(pool.pending(), 0);
    assert_eq!(pool.worker(0).state, WorkerState::Terminated);
    assert_eq!(pool.worker(1).state, WorkerState::Terminated);
    assert!(pool.is_terminated());
}

#[test]
fn try_execute_on_an_open_pool_queues_the_job() {
    let mut pool: ThreadPool<u32, ()> = ThreadPool::new(1);
    assert_eq!(pool.try_execute(4), Ok(()));
    assert_eq!(pool.pending(), 1);
    assert_eq!(pool.claim(0), Claim::Job(4));
}

#[test]
fn try_execute_after_shutdown_gives_the_job_back() {
    let mut pool: ThreadPool<u32, ()> = ThreadPool::new(2);
    pool.execute(1);
    pool.shutdown();
    assert_eq!(pool.try_execute(2), Err(2));
    assert_eq!(pool.pending(), 1);
    assert_eq!(pool.claim(0), Claim::Job(1));
    pool.finish(0);
    assert_eq!(pool.claim(0), Claim::Closed);
    assert_eq!(pool.claim(1), Claim::Closed);
    assert!(pool.is_terminated());
    assert_eq!(pool.try_execute(3), Err(3));
    assert_eq!(pool.pending(), 0);
    assert!(pool.is_terminated());
}

#[test]
fn hundred_jobs_on_four_workers_each_run_once() {
    let mut pool: ThreadPool<Box<dyn FnOnce()>, usize> = ThreadPool::new(4);
    for id in 0..4 {
        pool.attach(id, id);
    }
    let runs: Vec<Rc<Cell<u32>>> = (0..100).map(|_| Rc::new(Cell::new(0))).collect();
    for k in 0..100 {
        let mine = Rc::clone(&runs[k]);
        pool.execute(Box::new(move || mine.set(mine.get() + 1)));
    }
    let handles = pool.shutdown();
    assert_eq!(handles, vec![0, 1, 2, 3]);
    let mut held: Vec<Option<Box<dyn FnOnce()>>> = vec![None, None, None, None];
    let mut step = 0usize;
    while !pool.is_terminated() {
        let id = (step * 7 + step / 3) % 4;
        match pool.worker(id).state {
            WorkerState::Idle => {
                if let Claim::Job(job) = pool.claim(id) {
                    held[id] = Some(job);
                }
            }
            WorkerState::Executing => {
                let job = held[id].take().unwrap();
                job();
                pool.finish(id);
            }
            WorkerState::Terminated => {}
        }
        step += 1;
        assert!(step < 10_000);
    }
    for k in 0..100 {
        assert_eq!(runs[k].get(), 1);
    }
    assert_eq!(pool.pending(), 0);
    for id in 0..4 {
        assert_eq!(pool.worker(id).state, WorkerState::Terminated);
        assert!(pool.worker(id).thread.is_none());
    }
}

#[test]
fn one_worker_runs_two_jobs_one_after_the_other() {
    let mut pool: ThreadPool<&'static str, ()> = ThreadPool::new(1);
    pool.execute("a");
    pool.execute("b");
    assert_eq!(pool.claim(0), Claim::Job("a"));
    assert_eq!(pool.worker(0).state, WorkerState::Executing);
    assert_eq!(pool.pending(), 1);
    pool.finish(0);
    assert_eq!(pool.claim(0), Claim::Job("b"));
    assert_eq!(pool.pending(), 0);
    pool.finish(0);
    pool.shutdown();
    assert_eq!(pool.claim(0), Claim::Closed);
    assert!(pool.is_terminated());
}

#[test]
fn two_workers_run_two_jobs_side_by_side() {
    let mut pool: ThreadPool<&'static str, ()> = ThreadPool::new(2);
    pool.execute("a");
    pool.execute("b");
    assert_eq!(pool.claim(0), Claim::Job("a"));
    assert_eq!(pool.claim(1), Claim::Job("b"));
    assert_eq!(pool.worker(0).state, WorkerState::Executing);
    assert_eq!(pool.worker(1).state, WorkerState::Executing);
    assert_eq!(pool.pending(), 0);
    pool.finish(1);
    pool.finish(0);
    pool.shutdown();
    assert_eq!(pool.claim(0), Claim::Closed);
    assert_eq!(pool.claim(1), Claim::Closed);
    assert!(pool.is_terminated());
}

#[test]
fn teardown_is_not_complete_while_a_job_is_in_flight() {
    let mut pool: ThreadPool<u32, &'static str> = ThreadPool::new(2);
    pool.attach(0, "a");
    pool.attach(1, "b");
    pool.execute(1);
    assert_eq!(pool.claim(0), Claim::Job(1));
    assert_eq!(pool.shutdown(), vec!["a", "b"]);
    assert_eq!(pool.claim(1), Claim::Closed);
    assert!(!pool.is_terminated());
    assert_eq!(pool.worker(0).state, WorkerState::Executing);
    pool.finish(0);
    assert!(!pool.is_terminated());
    assert_eq!(pool.claim(0), Claim::Closed);
    assert!(pool.is_terminated());
}

#[test]
fn jobs_of_two_callers_each_run_once() {
    let mut pool: ThreadPool<(char, u32), ()> = ThreadPool::new(3);
    let mut seen: Vec<(char, u32)> = Vec::new();
    let mut held: Vec<Option<(char, u32)>> = vec![None, None, None];
    for round in 0..30u32 {
        pool.execute(('x', round));
        let id = (round as usize) % 3;
        match pool.worker(id).state {
            WorkerState::Idle => {
                if let Claim::Job(job) = pool.claim(id) {
                    held[id] = Some(job);
                }
            }
            WorkerState::Executing => {
                seen.push(held[id].take().unwrap());
                pool.finish(id);
            }
            WorkerState::Terminated => unreachable!(),
        }
        pool.execute(('y', round));
    }
    pool.shutdown();
    let mut step = 0usize;
    while !pool.is_terminated() {
        let id = step % 3;
        match pool.worker(id).state {
            WorkerState::Idle => {
                if let Claim::Job(job) = pool.claim(id) {
                    held[id] = Some(job);
                }
            }
            WorkerState::Executing => {
                seen.push(held[id].take().unwrap());
                pool.finish(id);
            }
            WorkerState::Terminated => {}
        }
        step += 1;
        assert!(step < 10_000);
    }
    assert_eq!(seen.len(), 60);
    for round in 0..30u32 {
        assert_eq!(seen.iter().filter(|job| **job == ('x', round)).count(), 1);
        assert_eq!(seen.iter().filter(|job| **job == ('y', round)).count(), 1);
    }
}
