use runtime_with_waker::executor::{spawn, Executor, ReadyQueue, Step};
use runtime_with_waker::future::PollState;

#[test]
fn ready_queue_pops_from_the_end() {
    let mut q = ReadyQueue::new();
    assert!(q.is_empty());
    q.push(1);
    q.push(2);
    q.push(3);
    assert_eq!(q.len(), 3);
    assert_eq!(q.pop(), Some(3));
    assert_eq!(q.pop(), Some(2));
    assert_eq!(q.pop(), Some(1));
    assert_eq!(q.pop(), None);
}

#[test]
fn spawn_assigns_increasing_ids_and_queues_them() {
    let mut exec: Executor<&str> = Executor::new();
    let mut q = ReadyQueue::new();
    assert_eq!(spawn(&mut exec, &mut q, "a"), 0);
    assert_eq!(spawn(&mut exec, &mut q, "b"), 1);
    assert_eq!(exec.task_count(), 2);
    assert_eq!(exec.next_id(), 2);
    assert_eq!(exec.pop_ready(&mut q), Some(1));
    assert_eq!(exec.pop_ready(&mut q), Some(0));
    assert_eq!(exec.pop_ready(&mut q), None);
}

#[test]
fn get_future_removes_the_task() {
    let mut exec: Executor<&str> = Executor::new();
    let mut q = ReadyQueue::new();
    let id = spawn(&mut exec, &mut q, "a");
    assert_eq!(exec.get_future(id), Some("a"));
    assert_eq!(exec.get_future(id), None);
    assert_eq!(exec.task_count(), 0);
    exec.insert_task(id, "b");
    assert_eq!(exec.get_future(id), Some("b"));
}

#[test]
fn empty_executor_finishes() {
    let mut exec: Executor<u32> = Executor::new();
    let mut q = ReadyQueue::new();
    assert!(matches!(exec.next_step(&mut q), Step::Finish));
}

#[test]
fn stale_ids_are_skipped_without_a_poll() {
    let mut exec: Executor<u32> = Executor::new();
    let mut q = ReadyQueue::new();
    let a = spawn(&mut exec, &mut q, 10);
    let b = spawn(&mut exec, &mut q, 20);
    // b is taken and resolves; a duplicate wake of b is then stale.
    match exec.next_step(&mut q) {
        Step::Run(id, t) => {
            assert_eq!((id, t), (b, 20));
            assert_eq!(exec.settle(id, t, PollState::Ready("done")), Some("done"));
        }
        _ => panic!("expected a task to run"),
    }
    q.push(b);
    q.push(b);
    match exec.next_step(&mut q) {
        Step::Run(id, t) => {
            assert_eq!((id, t), (a, 10));
            assert!(q.is_empty());
            assert_eq!(exec.settle(id, t, PollState::<&str>::NotReady), None);
        }
        _ => panic!("expected a task to run"),
    }
    q.push(b);
    assert!(matches!(exec.next_step(&mut q), Step::Park));
    assert!(q.is_empty());
    assert_eq!(exec.task_count(), 1);
}

#[test]
fn parks_only_with_pending_tasks_and_finishes_when_table_empties() {
    let mut exec: Executor<u32> = Executor::new();
    let mut q = ReadyQueue::new();
    let a = spawn(&mut exec, &mut q, 7);
    let (id, t) = match exec.next_step(&mut q) {
        Step::Run(id, t) => (id, t),
        _ => panic!("expected a task to run"),
    };
    assert_eq!(id, a);
    assert_eq!(exec.settle(id, t, PollState::<u32>::NotReady), None);
    assert_eq!(exec.task_count(), 1);
    assert!(matches!(exec.next_step(&mut q), Step::Park));
    q.push(a);
    let (id, t) = match exec.next_step(&mut q) {
        Step::Run(id, t) => (id, t),
        _ => panic!("expected a task to run"),
    };
    assert_eq!(exec.settle(id, t, PollState::Ready(t + 1)), Some(8));
    assert_eq!(exec.task_count(), 0);
    assert!(matches!(exec.next_step(&mut q), Step::Finish));
}
