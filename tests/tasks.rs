use kernel_core::{BoundedQueue, Executor, IdleAction, ScancodeStream, SimpleExecutor, TaskWaker};

#[test]
fn task_reports_42_and_keyboard_task_stays_pending() {
    let mut executor = Executor::new(100);
    let mut scancodes = ScancodeStream::new(100);
    let a = executor.spawn().unwrap();
    let b = executor.spawn().unwrap();
    let mut result = None;
    while let Some(id) = executor.next_ready() {
        if id == a {
            result = Some(42u32);
            executor.complete(a);
        } else {
            let waker = executor.suspend(id);
            assert_eq!(scancodes.poll_next(waker), None);
        }
    }
    assert_eq!(result, Some(42));
    assert!(!executor.is_registered(a));
    assert!(executor.is_registered(b));
    assert_eq!(executor.idle_action(), IdleAction::EnableAndHalt);
    // no interrupt arrives, so nothing is ready again
    assert_eq!(executor.next_ready(), None);
    assert!(executor.is_registered(b));
}

#[test]
fn scancode_queue_of_four_keeps_the_first_four() {
    let mut stream = ScancodeStream::new(4);
    for sc in [1u8, 2, 3, 4, 5, 6] {
        stream.add_scancode(sc);
    }
    let w = TaskWaker { task_id: 0 };
    let got: Vec<u8> = (0..4).map(|_| stream.poll_next(w).unwrap()).collect();
    assert_eq!(got, vec![1, 2, 3, 4]);
    assert_eq!(stream.poll_next(w), None);
}

#[test]
fn scancode_arrival_wakes_the_waiting_task() {
    let mut executor = Executor::new(8);
    let mut stream = ScancodeStream::new(8);
    let id = executor.spawn().unwrap();
    assert_eq!(executor.next_ready(), Some(id));
    let waker = executor.suspend(id);
    assert_eq!(stream.poll_next(waker), None);
    assert_eq!(executor.idle_action(), IdleAction::EnableAndHalt);
    // the interrupt handler
    let to_wake = stream.add_scancode(0x1e).unwrap();
    executor.wake(to_wake);
    assert_eq!(executor.idle_action(), IdleAction::EnableAndContinue);
    assert_eq!(executor.next_ready(), Some(id));
    assert_eq!(stream.poll_next(executor.suspend(id)), Some(0x1e));
    // the waker was used up: a second arrival wakes nobody
    assert_eq!(stream.add_scancode(0x9e), None);
}

#[test]
fn full_scancode_queue_drops_and_wakes_nobody() {
    let mut stream = ScancodeStream::new(1);
    let w = TaskWaker { task_id: 3 };
    assert_eq!(stream.poll_next(w), None);
    assert_eq!(stream.add_scancode(7), Some(w));
    assert_eq!(stream.poll_next(w), Some(7));
    assert_eq!(stream.poll_next(w), None);
    assert_eq!(stream.add_scancode(8), Some(w));
    assert_eq!(stream.add_scancode(9), None);
    assert_eq!(stream.len(), 1);
}

#[test]
fn completed_task_is_never_polled_again() {
    let mut executor = Executor::new(8);
    let id = executor.spawn().unwrap();
    let waker = executor.suspend(id);
    // woken twice while pending: its identifier is queued twice
    executor.wake(waker);
    assert_eq!(executor.next_ready(), Some(id));
    executor.complete(id);
    executor.wake(waker);
    assert_eq!(executor.next_ready(), None);
    assert_eq!(executor.task_count(), 0);
}

#[test]
fn stale_entry_in_queue_is_skipped() {
    let mut executor = Executor::new(8);
    let a = executor.spawn().unwrap();
    let b = executor.spawn().unwrap();
    let wa = executor.suspend(a);
    executor.wake(wa);
    assert_eq!(executor.next_ready(), Some(a));
    executor.complete(a);
    // the queue still holds b, then the stale a
    assert_eq!(executor.next_ready(), Some(b));
    assert_eq!(executor.next_ready(), None);
}

#[test]
fn waking_an_unknown_task_changes_nothing() {
    let mut executor = Executor::new(4);
    let id = executor.spawn().unwrap();
    executor.wake(TaskWaker { task_id: 99 });
    assert_eq!(executor.ready_len(), 1);
    assert_eq!(executor.task_count(), 1);
    assert_eq!(executor.next_ready(), Some(id));
    executor.wake(TaskWaker { task_id: 99 });
    assert_eq!(executor.ready_len(), 0);
    assert_eq!(executor.idle_action(), IdleAction::EnableAndHalt);
}

#[test]
fn never_halts_with_work_queued() {
    let mut executor = Executor::new(4);
    assert_eq!(executor.idle_action(), IdleAction::EnableAndHalt);
    let id = executor.spawn().unwrap();
    assert_eq!(executor.idle_action(), IdleAction::EnableAndContinue);
    assert_eq!(executor.next_ready(), Some(id));
    let w = executor.suspend(id);
    assert_eq!(executor.idle_action(), IdleAction::EnableAndHalt);
    // a wake lands between the first look and the masked re-check
    executor.wake(w);
    assert_eq!(executor.idle_action(), IdleAction::EnableAndContinue);
}

#[test]
fn wake_on_full_ready_queue_is_dropped() {
    let mut executor = Executor::new(1);
    let a = executor.spawn().unwrap();
    assert_eq!(executor.spawn(), None);
    let w = executor.suspend(a);
    executor.wake(w);
    assert_eq!(executor.ready_len(), 1);
    assert_eq!(executor.next_ready(), Some(a));
    assert_eq!(executor.next_ready(), None);
}

#[test]
fn spawned_identifiers_are_fresh() {
    let mut executor = Executor::new(4);
    let a = executor.spawn().unwrap();
    let b = executor.spawn().unwrap();
    assert_eq!((a, b), (0, 1));
    assert_eq!(executor.next_ready(), Some(a));
    executor.complete(a);
    assert_eq!(executor.spawn(), Some(2));
}

#[test]
fn waker_is_cached_across_suspensions() {
    let mut executor = Executor::new(4);
    let id = executor.spawn().unwrap();
    let first = executor.suspend(id);
    let second = executor.suspend(id);
    assert_eq!(first, second);
    assert_eq!(first.task_id, id);
}

#[test]
fn simple_executor_polls_round_robin() {
    let mut simple = SimpleExecutor::new();
    let a = simple.spawn().unwrap();
    let b = simple.spawn().unwrap();
    let mut order = Vec::new();
    let mut polls_left_for_b = 2;
    while let Some(id) = simple.next_task() {
        order.push(id);
        if id == b && polls_left_for_b > 1 {
            polls_left_for_b -= 1;
            simple.requeue(id);
        }
    }
    assert_eq!(order, vec![a, b, b]);
    assert_eq!(simple.len(), 0);
}

#[test]
fn bounded_queue_wraps_around() {
    let mut q: BoundedQueue<u64> = BoundedQueue::new(3);
    assert!(q.push(1));
    assert!(q.push(2));
    assert_eq!(q.pop(), Some(1));
    assert!(q.push(3));
    assert!(q.push(4));
    assert!(!q.push(5));
    assert_eq!(q.len(), 3);
    assert_eq!(q.pop(), Some(2));
    assert!(q.push(6));
    let rest: Vec<u64> = (0..3).map(|_| q.pop().unwrap()).collect();
    assert_eq!(rest, vec![3, 4, 6]);
    assert!(q.is_empty());
    assert_eq!(q.pop(), None);
}

#[test]
fn zero_capacity_queue_drops_everything() {
    let mut q: BoundedQueue<u8> = BoundedQueue::new(0);
    assert!(!q.push(1));
    assert_eq!(q.pop(), None);
    assert_eq!(q.capacity(), 0);
}
