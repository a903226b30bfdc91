use rust_os::executor::SleepingExecutor;
use rust_os::keyboard::{add_scancode, ScancodeBus, ScancodeDelivery, ScancodeStream,
    SCANCODE_QUEUE_CAPACITY};
use rust_os::task::{Task, TaskFuture, TaskIdCounter};

#[test]
fn task_ids_are_fresh() {
    let mut counter = TaskIdCounter::new();
    let t1 = Task::new(TaskFuture::Immediate, &mut counter);
    let t2 = Task::new(TaskFuture::Immediate, &mut counter);
    assert_ne!(t1.id.id, t2.id.id);
}

#[test]
fn immediate_task_completes_on_first_poll() {
    let mut counter = TaskIdCounter::new();
    let mut exec = SleepingExecutor::new();
    let mut bus = ScancodeBus::new();
    let _stream = ScancodeStream::new(&mut bus);
    let mut sink: Vec<u8> = Vec::new();
    exec.spawn(Task::new(TaskFuture::Immediate, &mut counter));
    assert!(!exec.queue_is_empty());
    assert_eq!(exec.queue_len(), 1);
    assert_eq!(exec.task_count(), 1);
    exec.run_ready_tasks(&mut bus, &mut sink);
    // Drop order: the completed task, with its future and cached waker,
    // left the registry during the drain.
    assert_eq!(exec.task_count(), 0);
    assert!(exec.queue_is_empty());
    assert!(sink.is_empty());
}

#[test]
fn yielding_task_completes_within_one_drain() {
    // Executor liveness: a task that yields k times is polled k + 1 times
    // during one drain (it re-wakes itself each time) and is then dropped.
    let mut counter = TaskIdCounter::new();
    let mut exec = SleepingExecutor::new();
    let mut bus = ScancodeBus::new();
    let _stream = ScancodeStream::new(&mut bus);
    let mut sink: Vec<u8> = Vec::new();
    exec.spawn(Task::new(TaskFuture::Yielding { remaining: 7 }, &mut counter));
    exec.run_ready_tasks(&mut bus, &mut sink);
    assert_eq!(exec.task_count(), 0);
    assert!(exec.queue_is_empty());
    // A second drain has nothing to do: the task is gone, not re-queued.
    exec.run_ready_tasks(&mut bus, &mut sink);
    assert!(exec.queue_is_empty());
}

#[test]
fn scancode_before_initialization_is_dropped() {
    let mut bus = ScancodeBus::new();
    let mut exec = SleepingExecutor::new();
    let r = add_scancode(&mut bus, &mut exec.task_queue, 0x1e);
    assert_eq!(r, ScancodeDelivery::Uninitialized);
}

#[test]
fn scancode_queue_full_is_dropped() {
    let mut bus = ScancodeBus::new();
    let mut exec = SleepingExecutor::new();
    let _stream = ScancodeStream::new(&mut bus);
    for i in 0..SCANCODE_QUEUE_CAPACITY {
        let r = add_scancode(&mut bus, &mut exec.task_queue, i as u8);
        assert_eq!(r, ScancodeDelivery::Delivered);
    }
    let r = add_scancode(&mut bus, &mut exec.task_queue, 0xff);
    assert_eq!(r, ScancodeDelivery::QueueFull);
}

#[test]
fn keyboard_echo() {
    // N scancodes pushed at the interrupt entry point emerge, in order,
    // from the consumer task.
    let mut counter = TaskIdCounter::new();
    let mut exec = SleepingExecutor::new();
    let mut bus = ScancodeBus::new();
    let stream = ScancodeStream::new(&mut bus);
    let mut sink: Vec<u8> = Vec::new();
    exec.spawn(Task::new(TaskFuture::KeyboardEcho { stream }, &mut counter));
    let input: Vec<u8> = (0..50u8).map(|i| i.wrapping_mul(7)).collect();
    for &b in &input {
        let r = add_scancode(&mut bus, &mut exec.task_queue, b);
        assert_eq!(r, ScancodeDelivery::Delivered);
    }
    exec.run_ready_tasks(&mut bus, &mut sink);
    assert_eq!(sink, input);
}

#[test]
fn wake_delivery_after_pending() {
    // After the consumer's first pending return, a pushed scancode wakes it
    // and its next poll returns exactly that scancode.
    let mut counter = TaskIdCounter::new();
    let mut exec = SleepingExecutor::new();
    let mut bus = ScancodeBus::new();
    let stream = ScancodeStream::new(&mut bus);
    let mut sink: Vec<u8> = Vec::new();
    exec.spawn(Task::new(TaskFuture::KeyboardEcho { stream }, &mut counter));
    // First drain: nothing queued, the consumer suspends with its waker
    // registered.
    exec.run_ready_tasks(&mut bus, &mut sink);
    assert!(sink.is_empty());
    assert!(exec.queue_is_empty());
    // The interrupt delivers one scancode: the consumer is woken.
    let r = add_scancode(&mut bus, &mut exec.task_queue, 0x2a);
    assert_eq!(r, ScancodeDelivery::Delivered);
    assert!(!exec.queue_is_empty());
    exec.run_ready_tasks(&mut bus, &mut sink);
    assert_eq!(exec.queue_len(), 0);
    assert_eq!(sink, vec![0x2a]);
    // And again: no wakeup is lost across repeated suspensions.
    let r = add_scancode(&mut bus, &mut exec.task_queue, 0x2b);
    assert_eq!(r, ScancodeDelivery::Delivered);
    exec.run_ready_tasks(&mut bus, &mut sink);
    assert_eq!(sink, vec![0x2a, 0x2b]);
}

#[test]
fn echo_coexists_with_other_tasks() {
    let mut counter = TaskIdCounter::new();
    let mut exec = SleepingExecutor::new();
    let mut bus = ScancodeBus::new();
    let stream = ScancodeStream::new(&mut bus);
    let mut sink: Vec<u8> = Vec::new();
    exec.spawn(Task::new(TaskFuture::Yielding { remaining: 3 }, &mut counter));
    exec.spawn(Task::new(TaskFuture::KeyboardEcho { stream }, &mut counter));
    exec.spawn(Task::new(TaskFuture::Immediate, &mut counter));
    for b in [1u8, 2, 3] {
        assert_eq!(add_scancode(&mut bus, &mut exec.task_queue, b), ScancodeDelivery::Delivered);
    }
    exec.run_ready_tasks(&mut bus, &mut sink);
    assert_eq!(sink, vec![1, 2, 3]);
    // The yielding and immediate tasks completed; the echo task stays.
    assert_eq!(exec.task_count(), 1);
    assert!(exec.queue_is_empty());
}
