use worker_pool::pool::{Dispatcher, Message, PoolError, PoolState, SubmitError, WorkerState};

/// Lets each waiting worker, in turn, take a message and finish it at once,
/// until every worker has stopped or the queue is empty. Returns the tasks in
/// the order in which they were handed out, with the worker that took each.
fn drain(d: &mut Dispatcher<u32>) -> Vec<(usize, u32)> {
    let mut log = Vec::new();
    loop {
        let mut progressed = false;
        for id in 0..d.worker_count() {
            if d.worker_state(id) != WorkerState::Waiting {
                continue;
            }
            match d.receive(id) {
                Some(Message::Run(t)) => {
                    assert_eq!(d.worker_state(id), WorkerState::Executing);
                    log.push((id, t));
                    d.finish(id);
                    progressed = true;
                }
                Some(Message::Stop) => {
                    assert_eq!(d.worker_state(id), WorkerState::Terminated);
                    progressed = true;
                }
                None => {}
            }
        }
        if !progressed {
            return log;
        }
    }
}

#[test]
fn new_with_zero_workers_fails() {
    assert!(matches!(Dispatcher::<u32>::new(0), Err(PoolError::NoWorkers)));
}

#[test]
fn new_starts_n_waiting_workers() {
    for n in 1..6usize {
        let d = Dispatcher::<u32>::new(n).ok().unwrap();
        assert_eq!(d.worker_count(), n);
        assert_eq!(d.state(), PoolState::Running);
        assert_eq!(d.pending(), 0);
        for id in 0..n {
            assert_eq!(d.worker_state(id), WorkerState::Waiting);
        }
    }
}

#[test]
fn n_tasks_run_on_n_workers_at_once() {
    let n = 4usize;
    let mut d = Dispatcher::<u32>::new(n).ok().unwrap();
    for t in 0..n as u32 {
        assert!(d.submit(t).is_ok());
    }
    for id in 0..n {
        assert!(matches!(d.receive(id), Some(Message::Run(_))));
    }
    for id in 0..n {
        assert_eq!(d.worker_state(id), WorkerState::Executing);
    }
    assert_eq!(d.pending(), 0);
}

#[test]
fn excess_tasks_wait_and_each_runs_once() {
    let mut d = Dispatcher::<u32>::new(3).ok().unwrap();
    for t in 0..10u32 {
        assert!(d.submit(t).is_ok());
    }
    assert_eq!(d.pending(), 10);
    let log = drain(&mut d);
    let tasks: Vec<u32> = log.iter().map(|p| p.1).collect();
    assert_eq!(tasks, (0..10u32).collect::<Vec<u32>>());
    assert_eq!(d.pending(), 0);
}

#[test]
fn receive_on_empty_queue_keeps_waiting() {
    let mut d = Dispatcher::<u32>::new(2).ok().unwrap();
    assert!(d.receive(1).is_none());
    assert_eq!(d.worker_state(1), WorkerState::Waiting);
}

#[test]
fn after_shutdown_no_worker_lives_and_submit_is_rejected() {
    let mut d = Dispatcher::<u32>::new(3).ok().unwrap();
    assert!(d.submit(7).is_ok());
    assert!(d.close());
    assert!(!d.is_stopped());
    let log = drain(&mut d);
    assert_eq!(log.len(), 1);
    assert!(d.is_stopped());
    assert_eq!(d.pending(), 0);
    assert_eq!(d.submit(8), Err(SubmitError::Rejected));
    assert_eq!(d.pending(), 0);
}

#[test]
fn close_twice_is_a_no_op() {
    let mut d = Dispatcher::<u32>::new(2).ok().unwrap();
    assert!(d.close());
    assert_eq!(d.pending(), 2);
    assert!(!d.close());
    assert_eq!(d.pending(), 2);
    assert!(d.is_closed());
    drain(&mut d);
    assert!(d.is_stopped());
    assert!(!d.close());
    assert_eq!(d.pending(), 0);
}

#[test]
fn submit_before_close_runs_before_the_stops() {
    let mut d = Dispatcher::<u32>::new(2).ok().unwrap();
    assert!(d.submit(42).is_ok());
    assert!(d.close());
    assert_eq!(d.pending(), 3);
    let log = drain(&mut d);
    assert_eq!(log.iter().map(|p| p.1).collect::<Vec<u32>>(), vec![42]);
    assert!(d.is_stopped());
}

#[test]
fn submit_after_close_is_rejected_without_change() {
    let mut d = Dispatcher::<u32>::new(2).ok().unwrap();
    assert!(d.close());
    assert_eq!(d.submit(42), Err(SubmitError::Rejected));
    assert_eq!(d.pending(), 2);
    let log = drain(&mut d);
    assert!(log.is_empty());
    assert!(d.is_stopped());
}

#[test]
fn two_workers_five_tasks_then_shutdown() {
    let mut d = Dispatcher::<u32>::new(2).ok().unwrap();
    for t in 0..5u32 {
        assert!(d.submit(t).is_ok());
    }
    assert!(d.close());
    let log = drain(&mut d);
    let mut tasks: Vec<u32> = log.iter().map(|p| p.1).collect();
    tasks.sort();
    assert_eq!(tasks, vec![0, 1, 2, 3, 4]);
    assert!(log.iter().any(|p| p.0 == 0));
    assert!(log.iter().any(|p| p.0 == 1));
    assert!(d.is_stopped());
    assert_eq!(d.submit(5), Err(SubmitError::Rejected));
}

#[test]
fn a_busy_worker_does_not_block_the_others() {
    let mut d = Dispatcher::<u32>::new(2).ok().unwrap();
    assert!(d.submit(1).is_ok());
    assert!(d.submit(2).is_ok());
    assert!(matches!(d.receive(0), Some(Message::Run(1))));
    assert!(matches!(d.receive(1), Some(Message::Run(2))));
    assert!(d.submit(3).is_ok());
    d.finish(1);
    assert_eq!(d.worker_state(1), WorkerState::Waiting);
    assert!(matches!(d.receive(1), Some(Message::Run(3))));
    assert_eq!(d.worker_state(0), WorkerState::Executing);
}
