use std::cell::RefCell;
use std::rc::Rc;

use runtime_with_waker::executor::{spawn, Executor, ReadyQueue, Step};
use runtime_with_waker::future::{Coroutine, Future, PollState};
use runtime_with_waker::http::{Http, HttpGetFuture, ReadAction, ReadEvent};
use runtime_with_waker::reactor::Reactor;

/// A wake handle that pushes its id onto a shared ready queue.
#[derive(Clone)]
struct TestWaker {
    id: usize,
    queue: Rc<RefCell<ReadyQueue>>,
}

impl TestWaker {
    fn wake(&self) {
        self.queue.borrow_mut().push(self.id);
    }
}

type Wakers = Rc<RefCell<Reactor<TestWaker>>>;

/// A leaf whose reads follow a script: `None` would block, `Some(bytes)`
/// returns those bytes (an empty one ends the stream).
struct ScriptedLeaf {
    id: usize,
    reads: Vec<Option<Vec<u8>>>,
    next: usize,
    reader: HttpGetFuture,
    wakers: Wakers,
    log: Rc<RefCell<Vec<String>>>,
}

impl ScriptedLeaf {
    fn new(reads: Vec<Option<Vec<u8>>>, wakers: &Wakers, log: &Rc<RefCell<Vec<String>>>) -> Self {
        let id = wakers.borrow_mut().next_id();
        ScriptedLeaf { id, reads, next: 0, reader: Http::get("/"), wakers: wakers.clone(), log: log.clone() }
    }
}

impl Future<TestWaker> for ScriptedLeaf {
    fn poll(&mut self, waker: &TestWaker) -> PollState<String> {
        if !self.reader.is_started() {
            self.reader.start();
            self.wakers.borrow_mut().set_waker(waker.clone(), self.id);
        }
        loop {
            let read = self.reads[self.next].clone();
            self.next += 1;
            let (event, chunk) = match read {
                Some(bytes) => (ReadEvent::Read(bytes.len()), bytes),
                None => (ReadEvent::WouldBlock, Vec::new()),
            };
            match self.reader.on_read(event, &chunk) {
                ReadAction::ReadAgain => continue,
                ReadAction::Suspend => {
                    self.wakers.borrow_mut().set_waker(waker.clone(), self.id);
                    self.log.borrow_mut().push(format!("leaf {} not ready", self.id));
                    return PollState::NotReady;
                }
                ReadAction::Finish(s) => {
                    self.wakers.borrow_mut().deregister(self.id);
                    self.log.borrow_mut().push(format!("leaf {} ready", self.id));
                    return PollState::Ready(s);
                }
                ReadAction::Fail => panic!("read failed"),
            }
        }
    }
}

type Task = Box<dyn Future<TestWaker>>;

/// Runs the drive loop; at each park the ids in `fire` (one batch per park)
/// become ready through the reactor's table. Returns the results.
fn drive(
    exec: &mut Executor<Task>,
    queue: &Rc<RefCell<ReadyQueue>>,
    wakers: &Wakers,
    log: &Rc<RefCell<Vec<String>>>,
    mut fire: Vec<Vec<usize>>,
) -> Vec<String> {
    let mut results = Vec::new();
    loop {
        let step = exec.next_step(&mut queue.borrow_mut());
        match step {
            Step::Run(id, mut task) => {
                let waker = TestWaker { id, queue: queue.clone() };
                let state = task.poll(&waker);
                if let Some(s) = exec.settle(id, task, state) {
                    results.push(s);
                }
            }
            Step::Park => {
                log.borrow_mut().push("park".to_string());
                let batch = fire.remove(0);
                let table = wakers.borrow();
                for id in table.fired_wakers(&batch) {
                    table.waker_for(id).unwrap().wake();
                }
            }
            Step::Finish => break,
        }
    }
    results
}

#[test]
fn two_stage_composite_resumes_at_the_second_stage_after_one_park() {
    let queue = Rc::new(RefCell::new(ReadyQueue::new()));
    let wakers: Wakers = Rc::new(RefCell::new(Reactor::new()));
    let log = Rc::new(RefCell::new(Vec::new()));
    let first = ScriptedLeaf::new(vec![None, Some(b"Hello World!".to_vec()), Some(vec![])], &wakers, &log);
    let first_id = first.id;
    // The second leaf is built once the first has resolved, and gets the next id.
    let second_id = first_id + 1;
    let (w, l) = (wakers.clone(), log.clone());
    let second = move || ScriptedLeaf::new(vec![Some(vec![])], &w, &l);
    let mut exec: Executor<Task> = Executor::new();
    spawn(&mut exec, &mut queue.borrow_mut(), Box::new(Coroutine::new(first, second)));
    let results = drive(&mut exec, &queue, &wakers, &log, vec![vec![first_id]]);
    assert_eq!(results, vec!["Hello World!".to_string()]);
    assert_eq!(results[0].len(), 12);
    assert_eq!(
        *log.borrow(),
        vec![
            format!("leaf {first_id} not ready"),
            "park".to_string(),
            format!("leaf {first_id} ready"),
            format!("leaf {second_id} ready"),
        ]
    );
    assert_eq!(exec.task_count(), 0);
}

#[test]
fn composite_with_ready_children_resolves_in_one_poll() {
    let wakers: Wakers = Rc::new(RefCell::new(Reactor::new()));
    let log = Rc::new(RefCell::new(Vec::new()));
    let first = ScriptedLeaf::new(vec![Some(b"ab".to_vec()), Some(vec![])], &wakers, &log);
    let (w, l) = (wakers.clone(), log.clone());
    let second = move || ScriptedLeaf::new(vec![Some(b"cd".to_vec()), Some(vec![])], &w, &l);
    let mut c = Coroutine::new(first, second);
    let waker = TestWaker { id: 0, queue: Rc::new(RefCell::new(ReadyQueue::new())) };
    match c.poll(&waker) {
        PollState::Ready(s) => assert_eq!(s, "abcd"),
        PollState::NotReady => panic!("expected the composite to resolve"),
    }
    assert!(c.is_resolved());
    assert_eq!(wakers.borrow().peek_id(), 3);
}

#[test]
fn composite_passes_on_a_child_not_ready_without_moving() {
    let wakers: Wakers = Rc::new(RefCell::new(Reactor::new()));
    let log = Rc::new(RefCell::new(Vec::new()));
    let first = ScriptedLeaf::new(vec![None], &wakers, &log);
    let (w, l) = (wakers.clone(), log.clone());
    let mut c = Coroutine::new(first, move || ScriptedLeaf::new(vec![Some(vec![])], &w, &l));
    let waker = TestWaker { id: 0, queue: Rc::new(RefCell::new(ReadyQueue::new())) };
    assert!(!c.poll(&waker).is_ready());
    assert!(!c.is_resolved());
    // The second leaf is not built while the first is pending.
    assert_eq!(wakers.borrow().peek_id(), 2);
    assert!(c.on_child(PollState::Ready("x".to_string())).is_none());
    assert_eq!(wakers.borrow().peek_id(), 3);
    match c.on_child(PollState::Ready("y".to_string())) {
        Some(PollState::Ready(s)) => assert_eq!(s, "xy"),
        _ => panic!("expected the composite to resolve"),
    }
}

fn spawn_n_and_drive(n: usize, fire: Vec<Vec<usize>>) -> (Vec<String>, usize) {
    let queue = Rc::new(RefCell::new(ReadyQueue::new()));
    let wakers: Wakers = Rc::new(RefCell::new(Reactor::new()));
    let log = Rc::new(RefCell::new(Vec::new()));
    let mut exec: Executor<Task> = Executor::new();
    for i in 0..n {
        let leaf = ScriptedLeaf::new(vec![None, Some(format!("r{i}").into_bytes()), Some(vec![])], &wakers, &log);
        spawn(&mut exec, &mut queue.borrow_mut(), Box::new(leaf));
    }
    let results = drive(&mut exec, &queue, &wakers, &log, fire);
    (results, exec.task_count())
}

#[test]
fn n_spawned_tasks_all_resolve_whatever_the_wake_order() {
    // Leaf ids are issued from 1.
    let (mut a, left_a) = spawn_n_and_drive(3, vec![vec![1, 2, 3]]);
    let (mut b, left_b) = spawn_n_and_drive(3, vec![vec![3, 1, 2]]);
    let (mut c, left_c) = spawn_n_and_drive(3, vec![vec![2], vec![3, 3], vec![1]]);
    for r in [&mut a, &mut b, &mut c] {
        r.sort();
        assert_eq!(*r, vec!["r0".to_string(), "r1".to_string(), "r2".to_string()]);
    }
    assert_eq!((left_a, left_b, left_c), (0, 0, 0));
}
