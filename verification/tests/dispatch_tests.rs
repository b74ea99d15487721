use prime_gen::dispatch::{DispatchQueue, WorkerStep};

fn run_all(queue: &mut DispatchQueue<u32>, order: &mut Vec<u32>) -> usize {
    let mut ran = 0usize;
    loop {
        let mut batch = Vec::new();
        loop {
            match queue.next_task() {
                WorkerStep::Run(task) => batch.push(task),
                WorkerStep::Wait => break,
                WorkerStep::Exit => break,
            }
        }
        if batch.is_empty() {
            return ran;
        }
        for task in batch {
            assert_eq!(queue.finish(), None);
            order.push(task);
            ran += 1;
            queue.complete(false);
        }
    }
}

#[test]
fn new_queue_is_idle_and_its_barrier_open() {
    let queue: DispatchQueue<u32> = DispatchQueue::new(4);
    assert_eq!(queue.finish(), Some(false));
    assert_eq!(queue.pending_len(), 0);
    assert_eq!(queue.in_flight(), 0);
    assert!(!queue.is_quit());
}

#[test]
fn barrier_opens_after_exactly_the_dispatched_tasks() {
    for workers in 1usize..=5 {
        for k in 0u32..=40 {
            let mut queue: DispatchQueue<u32> = DispatchQueue::new(workers);
            for task in 0..k {
                assert!(queue.dispatch(task));
            }
            if k > 0 {
                assert_eq!(queue.finish(), None);
            }
            let mut order = Vec::new();
            let counter = run_all(&mut queue, &mut order);
            assert_eq!(counter, k as usize);
            assert_eq!(queue.finish(), Some(false));
            assert_eq!(queue.pending_len(), 0);
            assert_eq!(queue.in_flight(), 0);
        }
    }
}

#[test]
fn tasks_leave_in_the_order_they_came() {
    let mut queue: DispatchQueue<u32> = DispatchQueue::new(3);
    for task in [7u32, 3, 9, 1, 8] {
        queue.dispatch(task);
    }
    let mut order = Vec::new();
    run_all(&mut queue, &mut order);
    assert_eq!(order, vec![7, 3, 9, 1, 8]);
}

#[test]
fn barrier_can_be_used_again_for_a_second_phase() {
    let mut queue: DispatchQueue<u32> = DispatchQueue::new(2);
    let mut order = Vec::new();
    queue.dispatch(1);
    queue.dispatch(2);
    run_all(&mut queue, &mut order);
    assert_eq!(queue.finish(), Some(false));
    queue.dispatch(3);
    assert_eq!(queue.finish(), None);
    run_all(&mut queue, &mut order);
    assert_eq!(queue.finish(), Some(false));
    assert_eq!(order, vec![1, 2, 3]);
}

#[test]
fn empty_queue_does_not_open_the_barrier_while_a_task_runs() {
    let mut queue: DispatchQueue<u32> = DispatchQueue::new(2);
    queue.dispatch(5);
    assert!(matches!(queue.next_task(), WorkerStep::Run(5)));
    assert_eq!(queue.pending_len(), 0);
    assert_eq!(queue.in_flight(), 1);
    assert_eq!(queue.finish(), None);
    assert!(queue.complete(false));
    assert_eq!(queue.finish(), Some(false));
}

#[test]
fn complete_reports_the_barrier_only_for_the_last_task() {
    let mut queue: DispatchQueue<u32> = DispatchQueue::new(2);
    queue.dispatch(1);
    queue.dispatch(2);
    assert!(matches!(queue.next_task(), WorkerStep::Run(1)));
    assert!(matches!(queue.next_task(), WorkerStep::Run(2)));
    assert!(!queue.complete(false));
    assert!(queue.complete(false));
}

#[test]
fn pool_size_bounds_the_tasks_in_flight() {
    let mut queue: DispatchQueue<u32> = DispatchQueue::new(2);
    for task in 0..3 {
        queue.dispatch(task);
    }
    assert!(matches!(queue.next_task(), WorkerStep::Run(0)));
    assert!(matches!(queue.next_task(), WorkerStep::Run(1)));
    assert!(matches!(queue.next_task(), WorkerStep::Wait));
    assert_eq!(queue.in_flight(), 2);
    assert_eq!(queue.pending_len(), 1);
    queue.complete(false);
    assert!(matches!(queue.next_task(), WorkerStep::Run(2)));
}

#[test]
fn idle_worker_is_told_to_wait() {
    let mut queue: DispatchQueue<u32> = DispatchQueue::new(1);
    assert!(matches!(queue.next_task(), WorkerStep::Wait));
}

#[test]
fn pool_without_workers_runs_nothing() {
    let mut queue: DispatchQueue<u32> = DispatchQueue::new(0);
    queue.dispatch(1);
    assert!(matches!(queue.next_task(), WorkerStep::Wait));
    assert_eq!(queue.finish(), None);
}

#[test]
fn stop_signal_is_quit_for_the_queue() {
    let mut queue: DispatchQueue<u32> = DispatchQueue::new(1);
    for task in 0..3 {
        queue.dispatch(task);
    }
    assert!(matches!(queue.next_task(), WorkerStep::Run(0)));
    assert!(queue.complete(true));
    assert!(queue.is_quit());
    assert_eq!(queue.pending_len(), 0);
    assert_eq!(queue.finish(), Some(true));
    assert!(matches!(queue.next_task(), WorkerStep::Exit));
}

#[test]
fn stop_signal_waits_for_the_tasks_in_flight() {
    let mut queue: DispatchQueue<u32> = DispatchQueue::new(2);
    for task in 0..4 {
        queue.dispatch(task);
    }
    assert!(matches!(queue.next_task(), WorkerStep::Run(0)));
    assert!(matches!(queue.next_task(), WorkerStep::Run(1)));
    assert!(!queue.complete(true));
    assert_eq!(queue.finish(), None);
    assert!(queue.complete(false));
    assert_eq!(queue.finish(), Some(true));
}

#[test]
fn dispatch_after_quit_is_ignored() {
    let mut queue: DispatchQueue<u32> = DispatchQueue::new(1);
    queue.shutdown();
    assert!(!queue.dispatch(1));
    assert_eq!(queue.pending_len(), 0);
    assert_eq!(queue.finish(), Some(false));
}

#[test]
fn dump_drops_what_waits_and_opens_the_barrier() {
    let mut queue: DispatchQueue<u32> = DispatchQueue::new(1);
    for task in 0..3 {
        queue.dispatch(task);
    }
    assert!(matches!(queue.next_task(), WorkerStep::Run(0)));
    queue.dump();
    assert_eq!(queue.pending_len(), 0);
    assert_eq!(queue.in_flight(), 1);
    assert_eq!(queue.finish(), Some(false));
    assert!(!queue.is_quit());
    assert!(queue.complete(false));
    assert!(matches!(queue.next_task(), WorkerStep::Wait));
    assert!(queue.dispatch(9));
    assert!(matches!(queue.next_task(), WorkerStep::Run(9)));
}

#[test]
fn dump_on_an_idle_queue_changes_nothing() {
    let mut queue: DispatchQueue<u32> = DispatchQueue::new(2);
    queue.dump();
    assert_eq!(queue.finish(), Some(false));
    assert!(queue.dispatch(1));
    assert_eq!(queue.pending_len(), 1);
}

#[test]
fn shutdown_is_idempotent_and_sends_workers_home() {
    let mut queue: DispatchQueue<u32> = DispatchQueue::new(2);
    queue.dispatch(1);
    queue.dispatch(2);
    queue.shutdown();
    assert!(queue.is_quit());
    assert_eq!(queue.pending_len(), 0);
    assert!(matches!(queue.next_task(), WorkerStep::Exit));
    queue.shutdown();
    assert!(queue.is_quit());
    assert_eq!(queue.pending_len(), 0);
    assert_eq!(queue.finish(), Some(false));
    assert!(matches!(queue.next_task(), WorkerStep::Exit));
}

#[test]
fn shutdown_leaves_the_barrier_to_the_task_in_flight() {
    let mut queue: DispatchQueue<u32> = DispatchQueue::new(1);
    queue.dispatch(1);
    assert!(matches!(queue.next_task(), WorkerStep::Run(1)));
    queue.shutdown();
    assert_eq!(queue.finish(), None);
    assert!(queue.complete(false));
    assert_eq!(queue.finish(), Some(false));
}

#[test]
fn reset_result_forgets_the_stop_signal() {
    let mut queue: DispatchQueue<u32> = DispatchQueue::new(1);
    queue.dispatch(1);
    assert!(matches!(queue.next_task(), WorkerStep::Run(1)));
    queue.complete(true);
    assert_eq!(queue.finish(), Some(true));
    queue.reset_result();
    assert_eq!(queue.finish(), Some(false));
    assert!(queue.is_quit());
}
