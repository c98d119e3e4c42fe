use kernel_core::task::executor::Executor;
use kernel_core::task::executor::ExecutorError;
use kernel_core::task::executor::TaskState;
use kernel_core::task::executor::Woken;
use kernel_core::task::executor::READY_QUEUE_CAPACITY;
use kernel_core::task::keyboard::AlreadyInitialized;
use kernel_core::task::keyboard::Delivery;
use kernel_core::task::keyboard::ScancodeBridge;
use kernel_core::task::keyboard::ScancodeStream;
use kernel_core::task::keyboard::StreamPoll;
use kernel_core::task::keyboard::SCANCODE_QUEUE_CAPACITY;
use kernel_core::task::waker::WakeSignal;
use kernel_core::task::Task;
use kernel_core::task::TaskId;
use kernel_core::task::TaskIdSource;

#[test]
fn task_ids_count_up() {
    let mut source = TaskIdSource::new();
    assert_eq!(source.next_id(), Some(TaskId(0)));
    assert_eq!(source.next_id(), Some(TaskId(1)));
    assert_eq!(source.next_id(), Some(TaskId(2)));
    assert!(TaskId(1) < TaskId(2));
}

#[test]
fn task_holds_id_and_body() {
    let task = Task::new(TaskId(9), "body");
    assert_eq!(task.id, TaskId(9));
    assert_eq!(task.body, "body");
}

#[test]
fn signal_resumes_the_waiting_task_once() {
    let mut signal = WakeSignal::new();
    assert_eq!(signal.register(TaskId(3)), None);
    assert_eq!(signal.notify(), Some(TaskId(3)));
    assert_eq!(signal.notify(), None);
    assert_eq!(signal.notify(), None);
}

#[test]
fn signal_keeps_one_pending_notification() {
    let mut signal = WakeSignal::new();
    assert_eq!(signal.notify(), None);
    assert_eq!(signal.notify(), None);
    assert_eq!(signal.notify(), None);
    // the pending notification resumes the next task that registers, once
    assert_eq!(signal.register(TaskId(4)), Some(TaskId(4)));
    assert_eq!(signal.register(TaskId(4)), None);
    assert_eq!(signal.notify(), Some(TaskId(4)));
}

#[test]
fn signal_holds_one_task_at_a_time() {
    let mut signal = WakeSignal::new();
    assert_eq!(signal.register(TaskId(1)), None);
    assert_eq!(signal.register(TaskId(2)), None);
    assert_eq!(signal.notify(), Some(TaskId(2)));
    assert_eq!(signal.notify(), None);
}

#[test]
fn signal_take_withdraws_the_registration() {
    let mut signal = WakeSignal::new();
    assert_eq!(signal.take(), None);
    assert_eq!(signal.register(TaskId(1)), None);
    assert_eq!(signal.take(), Some(TaskId(1)));
    assert_eq!(signal.take(), None);
    assert_eq!(signal.notify(), None);
    // take leaves a pending notification in place
    assert_eq!(signal.take(), None);
    assert_eq!(signal.register(TaskId(2)), Some(TaskId(2)));
}

#[test]
fn scancode_before_setup_is_dropped() {
    let mut bridge = ScancodeBridge::new();
    assert!(!bridge.is_initialized());
    assert_eq!(bridge.add_scancode(0x1e), Delivery::Uninitialized);
    assert_eq!(bridge.waiting(), 0);
}

#[test]
fn stream_sets_the_queue_up_once() {
    let mut bridge = ScancodeBridge::new();
    assert!(ScancodeStream::new(&mut bridge).is_ok());
    assert!(bridge.is_initialized());
    assert_eq!(bridge.add_scancode(0x1e), Delivery::Queued { wake: None });
    assert!(matches!(ScancodeStream::new(&mut bridge), Err(AlreadyInitialized)));
    assert_eq!(bridge.waiting(), 1);
}

#[test]
fn stream_yields_scancodes_in_order() {
    let mut bridge = ScancodeBridge::new();
    let mut stream = ScancodeStream::new(&mut bridge).unwrap();
    for byte in [0x1eu8, 0x9e, 0xff, 0x00] {
        assert_eq!(bridge.add_scancode(byte), Delivery::Queued { wake: None });
    }
    for byte in [0x1eu8, 0x9e, 0xff, 0x00] {
        assert_eq!(
            stream.poll_next(&mut bridge, TaskId(1)),
            StreamPoll { item: Some(byte), wake: None }
        );
    }
}

#[test]
fn full_scancode_queue_drops_the_scancode() {
    let mut bridge = ScancodeBridge::new();
    let mut stream = ScancodeStream::new(&mut bridge).unwrap();
    for i in 0..SCANCODE_QUEUE_CAPACITY {
        assert_eq!(bridge.add_scancode(i as u8), Delivery::Queued { wake: None });
    }
    assert_eq!(bridge.add_scancode(0xaa), Delivery::QueueFull);
    assert_eq!(bridge.waiting(), SCANCODE_QUEUE_CAPACITY);
    for i in 0..SCANCODE_QUEUE_CAPACITY {
        assert_eq!(stream.poll_next(&mut bridge, TaskId(1)).item, Some(i as u8));
    }
    assert_eq!(stream.poll_next(&mut bridge, TaskId(1)).item, None);
}

#[test]
fn poll_on_empty_queue_registers_the_task() {
    let mut bridge = ScancodeBridge::new();
    let mut stream = ScancodeStream::new(&mut bridge).unwrap();
    assert_eq!(stream.poll_next(&mut bridge, TaskId(7)), StreamPoll { item: None, wake: None });
    assert_eq!(bridge.add_scancode(0x10), Delivery::Queued { wake: Some(TaskId(7)) });
    // the task was resumed by the first scancode: the second wakes nobody
    assert_eq!(bridge.add_scancode(0x11), Delivery::Queued { wake: None });
    assert_eq!(stream.poll_next(&mut bridge, TaskId(7)).item, Some(0x10));
    assert_eq!(stream.poll_next(&mut bridge, TaskId(7)).item, Some(0x11));
    // the second notification was pending: registering resumes the task at once
    assert_eq!(
        stream.poll_next(&mut bridge, TaskId(7)),
        StreamPoll { item: None, wake: Some(TaskId(7)) }
    );
    assert_eq!(stream.poll_next(&mut bridge, TaskId(7)), StreamPoll { item: None, wake: None });
}

#[test]
fn new_executor_is_idle() {
    let mut executor: Executor<u32, u8> = Executor::new();
    assert!(executor.should_idle());
    assert_eq!(executor.ready_count(), 0);
    executor.begin_pass();
    assert!(executor.next_ready().is_none());
    assert_eq!(executor.state(TaskId(0)), None);
}

#[test]
fn spawned_task_is_ready_to_run() {
    let mut executor: Executor<u32, u8> = Executor::new();
    assert_eq!(executor.spawn(Task::new(TaskId(1), 11)), Ok(()));
    assert_eq!(executor.state(TaskId(1)), Some(TaskState::Runnable));
    assert_eq!(executor.ready_count(), 1);
    assert!(!executor.should_idle());
}

#[test]
fn spawning_a_registered_identity_is_refused() {
    let mut executor: Executor<&str, u8> = Executor::new();
    assert_eq!(executor.spawn(Task::new(TaskId(1), "first")), Ok(()));
    assert_eq!(
        executor.spawn(Task::new(TaskId(1), "second")),
        Err(ExecutorError::DuplicateTaskId)
    );
    assert_eq!(executor.ready_count(), 1);
    executor.begin_pass();
    let task = executor.next_ready().unwrap();
    assert_eq!(task.id, TaskId(1));
    assert_eq!(task.body, "first");
    // also while the first one runs
    assert_eq!(
        executor.spawn(Task::new(TaskId(1), "third")),
        Err(ExecutorError::DuplicateTaskId)
    );
    assert_eq!(executor.state(TaskId(1)), Some(TaskState::Running));
}

#[test]
fn spawning_onto_a_full_ready_queue_is_refused() {
    let mut executor: Executor<usize, u8> = Executor::new();
    for i in 0..READY_QUEUE_CAPACITY {
        assert_eq!(executor.spawn(Task::new(TaskId(i as u64), i)), Ok(()));
    }
    assert_eq!(
        executor.spawn(Task::new(TaskId(1000), 0)),
        Err(ExecutorError::ReadyQueueOverflow)
    );
    assert_eq!(executor.state(TaskId(1000)), None);
    assert_eq!(executor.ready_count(), READY_QUEUE_CAPACITY);
}

#[test]
fn pass_runs_the_ready_tasks_in_order() {
    let mut executor: Executor<u32, u8> = Executor::new();
    for id in [5u64, 3, 9] {
        assert_eq!(executor.spawn(Task::new(TaskId(id), id as u32 * 10)), Ok(()));
    }
    executor.begin_pass();
    let mut seen = Vec::new();
    while let Some(task) = executor.next_ready() {
        assert_eq!(executor.state(task.id), Some(TaskState::Running));
        seen.push((task.id, task.body));
        // every task wakes itself: it is ready again, but for the next pass
        assert_eq!(executor.wake(task.id), Ok(Woken::Deferred));
        assert_eq!(executor.suspend(task), Ok(()));
    }
    assert_eq!(seen, vec![(TaskId(5), 50), (TaskId(3), 30), (TaskId(9), 90)]);
    assert_eq!(executor.ready_count(), 3);
    executor.begin_pass();
    assert_eq!(executor.next_ready().unwrap().id, TaskId(5));
}

#[test]
fn next_ready_needs_a_pass() {
    let mut executor: Executor<u32, u8> = Executor::new();
    assert_eq!(executor.spawn(Task::new(TaskId(1), 0)), Ok(()));
    assert!(executor.next_ready().is_none());
    executor.begin_pass();
    assert_eq!(executor.spawn(Task::new(TaskId(2), 0)), Ok(()));
    assert_eq!(executor.next_ready().unwrap().id, TaskId(1));
    // the task spawned during the pass waits for the next pass
    assert!(executor.next_ready().is_none());
    executor.begin_pass();
    assert_eq!(executor.next_ready().unwrap().id, TaskId(2));
}

#[test]
fn suspended_task_runs_again_after_a_wake() {
    let mut executor: Executor<u32, u8> = Executor::new();
    assert_eq!(executor.spawn(Task::new(TaskId(1), 77)), Ok(()));
    executor.begin_pass();
    let task = executor.next_ready().unwrap();
    assert_eq!(executor.suspend(task), Ok(()));
    assert_eq!(executor.state(TaskId(1)), Some(TaskState::Suspended));
    assert!(executor.should_idle());
    executor.begin_pass();
    assert!(executor.next_ready().is_none());

    assert_eq!(executor.wake(TaskId(1)), Ok(Woken::Queued));
    assert_eq!(executor.state(TaskId(1)), Some(TaskState::Runnable));
    executor.begin_pass();
    let task = executor.next_ready().unwrap();
    assert_eq!((task.id, task.body), (TaskId(1), 77));
}

#[test]
fn two_wakes_make_a_task_ready_once() {
    let mut executor: Executor<u32, u8> = Executor::new();
    assert_eq!(executor.spawn(Task::new(TaskId(1), 0)), Ok(()));
    executor.begin_pass();
    let task = executor.next_ready().unwrap();
    assert_eq!(executor.suspend(task), Ok(()));
    assert_eq!(executor.wake(TaskId(1)), Ok(Woken::Queued));
    assert_eq!(executor.wake(TaskId(1)), Ok(Woken::AlreadyQueued));
    assert_eq!(executor.ready_count(), 1);
    executor.begin_pass();
    assert!(executor.next_ready().is_some());
    assert!(executor.next_ready().is_none());
}

#[test]
fn wake_of_an_unknown_task_changes_nothing() {
    let mut executor: Executor<u32, u8> = Executor::new();
    assert_eq!(executor.wake(TaskId(42)), Ok(Woken::Unknown));
    assert_eq!(executor.ready_count(), 0);
}

#[test]
fn wake_onto_a_full_ready_queue_is_refused() {
    let mut executor: Executor<usize, u8> = Executor::new();
    assert_eq!(executor.spawn(Task::new(TaskId(500), 0)), Ok(()));
    executor.begin_pass();
    let sleeper = executor.next_ready().unwrap();
    assert_eq!(executor.suspend(sleeper), Ok(()));
    assert_eq!(executor.spawn(Task::new(TaskId(501), 0)), Ok(()));
    executor.begin_pass();
    let runner = executor.next_ready().unwrap();
    for i in 0..READY_QUEUE_CAPACITY {
        assert_eq!(executor.spawn(Task::new(TaskId(i as u64), i)), Ok(()));
    }
    assert_eq!(executor.wake(TaskId(500)), Err(ExecutorError::ReadyQueueOverflow));
    assert_eq!(executor.state(TaskId(500)), Some(TaskState::Suspended));
    // a task that was woken while it ran finds no room either
    assert_eq!(executor.wake(TaskId(501)), Ok(Woken::Deferred));
    assert_eq!(executor.suspend(runner), Err(ExecutorError::ReadyQueueOverflow));
    assert_eq!(executor.state(TaskId(501)), Some(TaskState::Suspended));
    assert_eq!(executor.ready_count(), READY_QUEUE_CAPACITY);
}

#[test]
fn completed_task_is_no_longer_registered() {
    let mut executor: Executor<u32, u8> = Executor::new();
    assert_eq!(executor.spawn(Task::new(TaskId(1), 0)), Ok(()));
    executor.begin_pass();
    let task = executor.next_ready().unwrap();
    assert_eq!(executor.wake(TaskId(1)), Ok(Woken::Deferred));
    assert_eq!(executor.complete(task), Ok(()));
    assert_eq!(executor.state(TaskId(1)), None);
    assert_eq!(executor.ready_count(), 0);
    assert_eq!(executor.wake(TaskId(1)), Ok(Woken::Unknown));
    // the identity is free again
    assert_eq!(executor.spawn(Task::new(TaskId(1), 5)), Ok(()));
}

#[test]
fn only_a_task_that_was_handed_out_is_taken_back() {
    let mut executor: Executor<u32, u8> = Executor::new();
    assert_eq!(executor.suspend(Task::new(TaskId(1), 0)), Err(ExecutorError::NotRunning));
    assert_eq!(executor.complete(Task::new(TaskId(1), 0)), Err(ExecutorError::NotRunning));
    assert_eq!(executor.spawn(Task::new(TaskId(1), 8)), Ok(()));
    assert_eq!(executor.suspend(Task::new(TaskId(1), 0)), Err(ExecutorError::NotRunning));
    assert_eq!(executor.complete(Task::new(TaskId(1), 0)), Err(ExecutorError::NotRunning));
    assert_eq!(executor.state(TaskId(1)), Some(TaskState::Runnable));
    executor.begin_pass();
    assert_eq!(executor.next_ready().unwrap().body, 8);
}

#[test]
fn scancode_wakes_the_suspended_task_and_is_consumed() {
    let keyboard = TaskId(1);
    let mut executor: Executor<ScancodeStream, u8> = Executor::new();
    let mut bridge = ScancodeBridge::new();
    let stream = ScancodeStream::new(&mut bridge).unwrap();
    assert_eq!(executor.spawn(Task::new(keyboard, stream)), Ok(()));

    // first pass: nothing to read, the task suspends with its trigger registered
    executor.begin_pass();
    let mut task = executor.next_ready().unwrap();
    let polled = task.body.poll_next(&mut bridge, task.id);
    assert_eq!(polled, StreamPoll { item: None, wake: None });
    assert_eq!(executor.suspend(task), Ok(()));
    assert!(executor.should_idle());

    // the interrupt: push, then notify
    let delivery = bridge.add_scancode(0x2a);
    assert_eq!(delivery, Delivery::Queued { wake: Some(keyboard) });
    assert_eq!(executor.wake(keyboard), Ok(Woken::Queued));
    assert!(!executor.should_idle());

    // one pass of the executor: the task consumes the scancode
    executor.begin_pass();
    let mut task = executor.next_ready().unwrap();
    assert_eq!(task.id, keyboard);
    let polled = task.body.poll_next(&mut bridge, task.id);
    assert_eq!(polled, StreamPoll { item: Some(0x2a), wake: None });
    let polled = task.body.poll_next(&mut bridge, task.id);
    assert_eq!(polled.item, None);
    assert_eq!(executor.suspend(task), Ok(()));
    assert!(executor.next_ready().is_none());
}

#[test]
fn two_notifications_resume_the_task_once() {
    let keyboard = TaskId(1);
    let mut executor: Executor<ScancodeStream, u8> = Executor::new();
    let mut bridge = ScancodeBridge::new();
    let stream = ScancodeStream::new(&mut bridge).unwrap();
    assert_eq!(executor.spawn(Task::new(keyboard, stream)), Ok(()));
    executor.begin_pass();
    let mut task = executor.next_ready().unwrap();
    assert_eq!(task.body.poll_next(&mut bridge, task.id).item, None);
    assert_eq!(executor.suspend(task), Ok(()));

    let mut resumed = 0;
    for byte in [1u8, 2] {
        if let Delivery::Queued { wake: Some(id) } = bridge.add_scancode(byte) {
            assert_eq!(executor.wake(id), Ok(Woken::Queued));
            resumed += 1;
        }
    }
    assert_eq!(resumed, 1);
    assert_eq!(executor.ready_count(), 1);
}

#[test]
fn trigger_is_kept_for_a_registered_task_until_it_completes() {
    let mut executor: Executor<u32, &str> = Executor::new();
    assert_eq!(executor.cache_trigger(TaskId(1), "early"), Err("early"));
    assert_eq!(executor.trigger(TaskId(1)), None);
    assert_eq!(executor.spawn(Task::new(TaskId(1), 0)), Ok(()));
    assert_eq!(executor.trigger(TaskId(1)), None);
    assert_eq!(executor.cache_trigger(TaskId(1), "first"), Ok(()));
    assert_eq!(executor.cache_trigger(TaskId(1), "second"), Err("second"));
    assert_eq!(executor.trigger(TaskId(1)), Some(&"first"));
    executor.begin_pass();
    let task = executor.next_ready().unwrap();
    assert_eq!(executor.suspend(task), Ok(()));
    assert_eq!(executor.trigger(TaskId(1)), Some(&"first"));
    assert_eq!(executor.wake(TaskId(1)), Ok(Woken::Queued));
    executor.begin_pass();
    let task = executor.next_ready().unwrap();
    assert_eq!(executor.complete(task), Ok(()));
    assert_eq!(executor.trigger(TaskId(1)), None);
    // a new task with the same identity starts without a trigger
    assert_eq!(executor.spawn(Task::new(TaskId(1), 0)), Ok(()));
    assert_eq!(executor.trigger(TaskId(1)), None);
}
