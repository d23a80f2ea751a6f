//! The executor: a task table keyed by id, a ready-id queue, and the
//! decisions of the drive loop.
use std::collections::HashMap;
use crate::future::PollState;
use vstd::prelude::*;

verus! {

broadcast use vstd::std_specs::hash::group_hash_axioms;

/// Ids of tasks that are waiting for a poll attempt; pushed on wake and
/// popped from the end by the drive loop.
pub struct ReadyQueue {
    ids: Vec<usize>,
}

impl View for ReadyQueue {
    type V = Seq<usize>;

    closed spec fn view(&self) -> Seq<usize> {
        self.ids@
    }
}

impl ReadyQueue {
    pub fn new() -> (r: ReadyQueue)
        ensures
            r@ == Seq::<usize>::empty(),
    {
        ReadyQueue { ids: Vec::new() }
    }

    /// Marks `id` ready: it is appended to the queue.
    pub fn push(&mut self, id: usize)
        ensures
            final(self)@ == old(self)@.push(id),
    {
        self.ids.push(id);
    }

    /// Takes the id at the end of the queue, if any.
    pub fn pop(&mut self) -> (r: Option<usize>)
        ensures
            old(self)@.len() == 0 ==> r is None && final(self)@ == old(self)@,
            old(self)@.len() > 0 ==> r == Some(old(self)@.last()) && final(self)@ == old(
                self,
            )@.drop_last(),
    {
        self.ids.pop()
    }

    pub fn len(&self) -> (r: usize)
        ensures
            r == self@.len(),
    {
        self.ids.len()
    }

    pub fn is_empty(&self) -> (r: bool)
        ensures
            r == (self@.len() == 0),
    {
        self.ids.len() == 0
    }
}

/// What the drive loop does next.
pub enum Step<T> {
    /// Poll the task with this id, which has been taken out of the table.
    Run(usize, T),
    /// Nothing is ready but tasks remain: park until woken.
    Park,
    /// No task remains: the drive loop ends.
    Finish,
}

/// The per-thread state of an executor: the task table and the id counter.
pub struct Executor<T> {
    tasks: HashMap<usize, T>,
    next_id: usize,
}

/// True when no id of the queue at or after position `from` names a task.
pub open spec fn all_stale<T>(q: Seq<usize>, from: int, tasks: Map<usize, T>) -> bool {
    forall|i: int| from <= i < q.len() ==> !tasks.contains_key(#[trigger] q[i])
}

impl<T> Executor<T> {
    /// The task table.
    pub closed spec fn tasks(&self) -> Map<usize, T> {
        self.tasks@
    }

    /// The id that the next spawn assigns.
    pub closed spec fn next(&self) -> nat {
        self.next_id as nat
    }

    /// Every task in the table has an id below the counter.
    pub open spec fn wf(&self) -> bool {
        forall|id: usize| #[trigger] self.tasks().contains_key(id) ==> id < self.next()
    }

    pub fn new() -> (r: Executor<T>)
        ensures
            r.wf(),
            r.tasks() == Map::<usize, T>::empty(),
            r.next() == 0,
    {
        Executor { tasks: HashMap::new(), next_id: 0 }
    }

    /// The id that the next spawn assigns.
    pub fn next_id(&self) -> (r: usize)
        ensures
            r == self.next(),
    {
        self.next_id
    }

    /// Pops the id at the end of the ready queue.
    pub fn pop_ready(&self, queue: &mut ReadyQueue) -> (r: Option<usize>)
        ensures
            old(queue)@.len() == 0 ==> r is None && final(queue)@ == old(queue)@,
            old(queue)@.len() > 0 ==> r == Some(old(queue)@.last()) && final(queue)@ == old(
                queue,
            )@.drop_last(),
    {
        queue.pop()
    }

    /// Removes the task with this id from the table and hands it out.
    pub fn get_future(&mut self, id: usize) -> (r: Option<T>)
        requires
            old(self).wf(),
        ensures
            final(self).wf(),
            final(self).next() == old(self).next(),
            final(self).tasks() == old(self).tasks().remove(id),
            old(self).tasks().contains_key(id) ==> r == Some(old(self).tasks()[id]),
            !old(self).tasks().contains_key(id) ==> r is None,
    {
        let r = self.tasks.remove(&id);
        assert forall|k: usize| #[trigger] self.tasks().contains_key(k) implies k < self.next() by {
            assert(old(self).tasks().contains_key(k));
        }
        r
    }

    /// Puts a task into the table under `id`.
    pub fn insert_task(&mut self, id: usize, task: T)
        requires
            old(self).wf(),
            id < old(self).next(),
        ensures
            final(self).wf(),
            final(self).next() == old(self).next(),
            final(self).tasks() == old(self).tasks().insert(id, task),
    {
        self.tasks.insert(id, task);
        assert forall|k: usize| #[trigger] self.tasks().contains_key(k) implies k < self.next() by {
            if k != id {
                assert(old(self).tasks().contains_key(k));
            }
        }
    }

    /// Decides the next move of the drive loop. Ids popped from the end of the
    /// queue whose task is no longer in the table are stale and skipped. The
    /// first id that names a task has that task taken out of the table and
    /// handed out to be polled. When the queue runs empty, the loop parks if
    /// tasks remain and finishes if none does.
    pub fn next_step(&mut self, queue: &mut ReadyQueue) -> (r: Step<T>)
        requires
            old(self).wf(),
        ensures
            final(self).wf(),
            final(self).next() == old(self).next(),
            match r {
                Step::Run(id, task) => {
                    let k = final(queue)@.len();
                    &&& k < old(queue)@.len()
                    &&& final(queue)@ == old(queue)@.subrange(0, k as int)
                    &&& old(queue)@[k as int] == id
                    &&& all_stale(old(queue)@, k + 1 as int, old(self).tasks())
                    &&& old(self).tasks().contains_key(id)
                    &&& task == old(self).tasks()[id]
                    &&& final(self).tasks() == old(self).tasks().remove(id)
                },
                Step::Park => {
                    &&& final(queue)@.len() == 0
                    &&& all_stale(old(queue)@, 0, old(self).tasks())
                    &&& final(self).tasks() == old(self).tasks()
                    &&& old(self).tasks().len() > 0
                },
                Step::Finish => {
                    &&& final(queue)@.len() == 0
                    &&& all_stale(old(queue)@, 0, old(self).tasks())
                    &&& final(self).tasks() == old(self).tasks()
                    &&& old(self).tasks().len() == 0
                },
            },
    {
        loop
            invariant
                self.wf(),
                self.next() == old(self).next(),
                self.tasks() == old(self).tasks(),
                queue@.len() <= old(queue)@.len(),
                queue@ == old(queue)@.subrange(0, queue@.len() as int),
                all_stale(old(queue)@, queue@.len() as int, old(self).tasks()),
            decreases queue@.len(),
        {
            let popped = self.pop_ready(queue);
            match popped {
                Some(id) => {
                    let got = self.get_future(id);
                    match got {
                        Some(task) => {
                            return Step::Run(id, task);
                        },
                        None => {
                            assert(self.tasks().remove(id) =~= self.tasks());
                        },
                    }
                },
                None => {
                    if self.task_count() > 0 {
                        return Step::Park;
                    } else {
                        return Step::Finish;
                    }
                },
            }
        }
    }

    /// Records the outcome of polling the task `id`: a task that is still
    /// pending goes back into the table; a resolved one is dropped, and its
    /// value is handed back.
    pub fn settle<V>(&mut self, id: usize, task: T, state: PollState<V>) -> (r: Option<V>)
        requires
            old(self).wf(),
            id < old(self).next(),
        ensures
            final(self).wf(),
            final(self).next() == old(self).next(),
            match state {
                PollState::Ready(v) => r == Some(v) && final(self).tasks() == old(self).tasks(),
                PollState::NotReady => r is None && final(self).tasks() == old(self).tasks().insert(
                    id,
                    task,
                ),
            },
    {
        match state {
            PollState::Ready(v) => Some(v),
            PollState::NotReady => {
                self.insert_task(id, task);
                None
            },
        }
    }

    /// Number of tasks in the table.
    pub fn task_count(&self) -> (r: usize)
        ensures
            r == self.tasks().len(),
    {
        self.tasks.len()
    }
}

/// `n` steps of the drive loop in a row.
pub open spec fn drives(n: nat) -> Seq<Move>
    decreases n,
{
    if n == 0 {
        Seq::empty()
    } else {
        drives((n - 1) as nat).push(Move::Drive)
    }
}

/// A move in a run of the runtime: a wake handle of a task is invoked, or the
/// drive loop makes one step.
pub enum Move {
    Wake(usize),
    Drive,
}

/// One move applied to a run's state: the task table, each task given by
/// how many more times its poll reports `NotReady`; the ready queue; and the
/// values of the tasks resolved so far, by id. `values` gives what each task
/// resolves to. A drive step pops the end of the queue; a stale id is
/// skipped; a task with no wait left resolves to its value and is dropped;
/// any other reports `NotReady` and is put back with one wait less. With an
/// empty queue the drive loop parks or finishes, and nothing changes.
pub open spec fn apply_move(
    table: Map<usize, nat>,
    queue: Seq<usize>,
    results: Map<usize, Seq<char>>,
    values: Map<usize, Seq<char>>,
    m: Move,
) -> (Map<usize, nat>, Seq<usize>, Map<usize, Seq<char>>) {
    match m {
        Move::Wake(id) => (table, queue.push(id), results),
        Move::Drive => if queue.len() == 0 {
            (table, queue, results)
        } else {
            let id = queue.last();
            let rest = queue.drop_last();
            if !table.contains_key(id) {
                (table, rest, results)
            } else if table[id] == 0 {
                (table.remove(id), rest, results.insert(id, values[id]))
            } else {
                (table.insert(id, (table[id] - 1) as nat), rest, results)
            }
        },
    }
}

/// The state after a sequence of moves.
pub open spec fn run(
    table: Map<usize, nat>,
    queue: Seq<usize>,
    results: Map<usize, Seq<char>>,
    values: Map<usize, Seq<char>>,
    moves: Seq<Move>,
) -> (Map<usize, nat>, Seq<usize>, Map<usize, Seq<char>>)
    decreases moves.len(),
{
    if moves.len() == 0 {
        (table, queue, results)
    } else {
        let prev = run(table, queue, results, values, moves.drop_last());
        apply_move(prev.0, prev.1, prev.2, values, moves.last())
    }
}

/// Each id of `ids` is either still in the table or has resolved, not both,
/// and each result is the value of its task.
pub open spec fn accounted(
    table: Map<usize, nat>,
    results: Map<usize, Seq<char>>,
    values: Map<usize, Seq<char>>,
    ids: Set<usize>,
) -> bool {
    &&& forall|id: usize| #[trigger] table.contains_key(id) ==> !results.contains_key(id)
    &&& table.dom().union(results.dom()) == ids
    &&& forall|id: usize| #[trigger] results.contains_key(id) ==> results[id] == values[id]
}

proof fn lemma_stale_drives(
    waits: Map<usize, nat>,
    q0: Seq<usize>,
    results: Map<usize, Seq<char>>,
    values: Map<usize, Seq<char>>,
    from: int,
    j: nat,
)
    requires
        0 <= from,
        from + j <= q0.len(),
        all_stale(q0, from, waits),
    ensures
        run(waits, q0, results, values, drives(j)) == (
            waits,
            q0.subrange(0, q0.len() - j),
            results,
        ),
    decreases j,
{
    if j == 0 {
        assert(q0.subrange(0, q0.len() as int) =~= q0);
    } else {
        lemma_stale_drives(waits, q0, results, values, from, (j - 1) as nat);
        assert(drives(j).drop_last() =~= drives((j - 1) as nat));
        let q = q0.subrange(0, q0.len() - (j - 1));
        assert(q.last() == q0[q0.len() - j]);
        assert(q.drop_last() =~= q0.subrange(0, q0.len() - j));
    }
}

/// One `next_step` that hands out the task `id`, followed by `settle` of its
/// poll, is a run of drive steps of the model below, one for each id popped:
/// the stale ids are skipped, and the task resolves to its value and leaves
/// the table, or is put back. The model's table holds the executor's task
/// ids, and a task has no wait left exactly when its poll was ready. The
/// premises are what the two functions ensure.
pub proof fn lemma_step_then_settle_is_drive<T>(
    before: Map<usize, T>,
    q0: Seq<usize>,
    q1: Seq<usize>,
    id: usize,
    task: T,
    ready: bool,
    after: Map<usize, T>,
    waits: Map<usize, nat>,
    results: Map<usize, Seq<char>>,
    values: Map<usize, Seq<char>>,
)
    requires
        q1.len() < q0.len(),
        q1 == q0.subrange(0, q1.len() as int),
        q0[q1.len() as int] == id,
        all_stale(q0, q1.len() + 1 as int, before),
        before.contains_key(id),
        ready ==> after == before.remove(id),
        !ready ==> after == before.remove(id).insert(id, task),
        waits.dom() == before.dom(),
        ready <==> waits[id] == 0,
    ensures
        ({
            let end = run(waits, q0, results, values, drives((q0.len() - q1.len()) as nat));
            &&& end.0.dom() == after.dom()
            &&& end.1 == q1
            &&& end.2 == if ready {
                results.insert(id, values[id])
            } else {
                results
            }
        }),
{
    let k = q1.len() as int;
    let m = (q0.len() - k - 1) as nat;
    assert(all_stale(q0, k + 1, waits)) by {
        assert forall|i: int| k + 1 <= i < q0.len() implies !waits.contains_key(#[trigger] q0[i]) by {
            assert(!before.contains_key(q0[i]));
            assert(!before.dom().contains(q0[i]));
        }
    }
    lemma_stale_drives(waits, q0, results, values, k + 1, m);
    assert(drives(m + 1).drop_last() =~= drives(m));
    let q = q0.subrange(0, q0.len() - m);
    assert(q.last() == id);
    assert(q.drop_last() =~= q1);
    assert(waits.contains_key(id)) by {
        assert(before.dom().contains(id));
    }
    if ready {
        assert(waits.remove(id).dom() =~= after.dom());
    } else {
        assert(waits.insert(id, (waits[id] - 1) as nat).dom() =~= after.dom());
    }
}

/// Every spawned task resolves exactly once, to its own value, whatever the
/// order in which wake handles are invoked: over any sequence of moves from
/// a state with no results yet, each task is either still in the table or
/// has resolved once, to its value, and never both. So once the table is
/// empty, the results are exactly the tasks' values, one per task, the same
/// for every order of wakes.
pub proof fn lemma_each_task_resolves_once(
    table: Map<usize, nat>,
    queue: Seq<usize>,
    values: Map<usize, Seq<char>>,
    moves: Seq<Move>,
)
    requires
        table.dom().finite(),
    ensures
        ({
            let end = run(table, queue, Map::empty(), values, moves);
            &&& end.0.dom().finite()
            &&& accounted(end.0, end.2, values, table.dom())
            &&& end.0.len() == 0 ==> {
                &&& end.2.dom() == table.dom()
                &&& end.2.len() == table.len()
                &&& forall|id: usize| #[trigger]
                    table.contains_key(id) ==> end.2[id] == values[id]
            }
        }),
    decreases moves.len(),
{
    let end = run(table, queue, Map::empty(), values, moves);
    if moves.len() == 0 {
        assert(table.dom().union(Map::<usize, Seq<char>>::empty().dom()) =~= table.dom());
    } else {
        lemma_each_task_resolves_once(table, queue, values, moves.drop_last());
        let prev = run(table, queue, Map::empty(), values, moves.drop_last());
        let t = prev.0;
        let q = prev.1;
        let r = prev.2;
        if moves.last() is Drive && q.len() > 0 && t.contains_key(q.last()) {
            let id = q.last();
            if t[id] == 0 {
                assert(t.remove(id).dom().union(r.insert(id, values[id]).dom()) =~= t.dom().union(
                    r.dom(),
                ));
            } else {
                assert(t.insert(id, (t[id] - 1) as nat).dom() =~= t.dom());
            }
        }
    }
    if end.0.len() == 0 {
        assert(end.0.dom() =~= Set::<usize>::empty()) by {
            if exists|id: usize| end.0.dom().contains(id) {
                let id = choose|id: usize| end.0.dom().contains(id);
                end.0.dom().lemma_len0_is_empty();
            }
        }
        assert(end.2.dom() =~= table.dom());
        assert forall|id: usize| #[trigger] table.contains_key(id) implies end.2[id] == values[id] by {
            assert(table.dom().contains(id));
            assert(end.2.dom().contains(id));
        }
    }
}

/// Each id of `wakes` in turn has its wake handle invoked, and the drive
/// loop then makes one step.
pub open spec fn wake_then_drive(wakes: Seq<usize>) -> Seq<Move>
    decreases wakes.len(),
{
    if wakes.len() == 0 {
        Seq::empty()
    } else {
        wake_then_drive(wakes.drop_last()).push(Move::Wake(wakes.last())).push(Move::Drive)
    }
}

proof fn lemma_wakes_remove_woken(
    table: Map<usize, nat>,
    values: Map<usize, Seq<char>>,
    wakes: Seq<usize>,
)
    requires
        forall|id: usize| #[trigger] table.contains_key(id) ==> table[id] == 0,
    ensures
        run(table, Seq::empty(), Map::empty(), values, wake_then_drive(wakes)).0
            == table.remove_keys(wakes.to_set()),
        run(table, Seq::empty(), Map::empty(), values, wake_then_drive(wakes)).1 == Seq::<
            usize,
        >::empty(),
    decreases wakes.len(),
{
    if wakes.len() == 0 {
        assert(wakes.to_set() =~= Set::<usize>::empty());
        assert(table.remove_keys(wakes.to_set()) =~= table);
    } else {
        let init = wakes.drop_last();
        let id = wakes.last();
        lemma_wakes_remove_woken(table, values, init);
        let ms = wake_then_drive(init);
        let ms1 = ms.push(Move::Wake(id));
        assert(wake_then_drive(wakes) == ms1.push(Move::Drive));
        assert(ms1.push(Move::Drive).drop_last() =~= ms1);
        assert(ms1.drop_last() =~= ms);
        let t = table.remove_keys(init.to_set());
        let s0 = run(table, Seq::empty(), Map::empty(), values, ms);
        let s1 = run(table, Seq::empty(), Map::empty(), values, ms1);
        assert(s1 == apply_move(s0.0, s0.1, s0.2, values, Move::Wake(id)));
        assert(s1.1 =~= seq![id]);
        assert(wakes =~= init.push(id));
        assert(wakes.to_set() =~= init.to_set().insert(id)) by {
            assert forall|x: usize| wakes.to_set().contains(x) implies init.to_set().insert(
                id,
            ).contains(x) by {
                let i = choose|i: int| 0 <= i < wakes.len() && wakes[i] == x;
                if i < init.len() {
                    assert(init[i] == x);
                }
            }
            assert forall|x: usize| init.to_set().insert(id).contains(x) implies wakes.to_set().contains(
                x,
            ) by {
                if x == id {
                    assert(wakes[wakes.len() - 1] == x);
                } else {
                    let i = choose|i: int| 0 <= i < init.len() && init[i] == x;
                    assert(wakes[i] == x);
                }
            }
        }
        assert(seq![id].drop_last() =~= Seq::<usize>::empty());
        if t.contains_key(id) {
            assert(t.remove(id) =~= table.remove_keys(wakes.to_set()));
        } else {
            assert(t =~= table.remove_keys(wakes.to_set()));
        }
    }
}

/// Tasks that have each reported `NotReady` once and wait on their wake
/// handle all resolve, each to its value, whatever the order in which the
/// handles are invoked: when every waiting task is woken at least once (in
/// any order, with repeats and with ids of no task), each wake followed by a
/// step of the drive loop, the task table and the queue end empty and the
/// results are the tasks' values, one per task.
pub proof fn lemma_woken_tasks_all_resolve(
    table: Map<usize, nat>,
    values: Map<usize, Seq<char>>,
    wakes: Seq<usize>,
)
    requires
        table.dom().finite(),
        forall|id: usize| #[trigger] table.contains_key(id) ==> table[id] == 0,
        forall|id: usize| #[trigger] table.contains_key(id) ==> wakes.contains(id),
    ensures
        ({
            let end = run(table, Seq::empty(), Map::empty(), values, wake_then_drive(wakes));
            &&& end.0.len() == 0
            &&& end.1.len() == 0
            &&& end.2.dom() == table.dom()
            &&& end.2.len() == table.len()
            &&& forall|id: usize| #[trigger] table.contains_key(id) ==> end.2[id] == values[id]
        }),
{
    lemma_wakes_remove_woken(table, values, wakes);
    lemma_each_task_resolves_once(table, Seq::empty(), values, wake_then_drive(wakes));
    let end = run(table, Seq::empty(), Map::empty(), values, wake_then_drive(wakes));
    assert(end.0 =~= Map::<usize, nat>::empty()) by {
        assert forall|id: usize| !end.0.contains_key(id) by {
            if table.contains_key(id) {
                assert(wakes.to_set().contains(id));
            }
        }
    }
}

proof fn lemma_run_append(
    table: Map<usize, nat>,
    queue: Seq<usize>,
    results: Map<usize, Seq<char>>,
    values: Map<usize, Seq<char>>,
    a: Seq<Move>,
    b: Seq<Move>,
)
    ensures
        ({
            let mid = run(table, queue, results, values, a);
            run(table, queue, results, values, a + b) == run(mid.0, mid.1, mid.2, values, b)
        }),
    decreases b.len(),
{
    if b.len() == 0 {
        assert(a + b =~= a);
    } else {
        lemma_run_append(table, queue, results, values, a, b.drop_last());
        assert((a + b).drop_last() =~= a + b.drop_last());
    }
}

proof fn lemma_first_polls(
    table: Map<usize, nat>,
    q0: Seq<usize>,
    values: Map<usize, Seq<char>>,
    j: nat,
)
    requires
        q0.no_duplicates(),
        forall|i: int| 0 <= i < q0.len() ==> table.contains_key(#[trigger] q0[i]),
        forall|id: usize| #[trigger] table.contains_key(id) ==> table[id] == 1,
        j <= q0.len(),
    ensures
        ({
            let end = run(table, q0, Map::empty(), values, drives(j));
            &&& end.0.dom() == table.dom()
            &&& end.1 == q0.subrange(0, q0.len() - j)
            &&& end.2 == Map::<usize, Seq<char>>::empty()
            &&& forall|id: usize| #[trigger]
                end.0.contains_key(id) ==> end.0[id] == if q0.subrange(
                    q0.len() - j,
                    q0.len() as int,
                ).contains(id) {
                    0nat
                } else {
                    1nat
                }
        }),
    decreases j,
{
    let n = q0.len() as int;
    if j == 0 {
        assert(q0.subrange(0, n) =~= q0);
        assert(q0.subrange(n, n) =~= Seq::<usize>::empty());
    } else {
        lemma_first_polls(table, q0, values, (j - 1) as nat);
        assert(drives(j).drop_last() =~= drives((j - 1) as nat));
        let prev = run(table, q0, Map::empty(), values, drives((j - 1) as nat));
        let q = prev.1;
        let x = q0[n - j];
        assert(q.last() == x);
        assert(q.drop_last() =~= q0.subrange(0, n - j));
        let done = q0.subrange(n - (j - 1), n);
        let now = q0.subrange(n - j, n);
        assert(!done.contains(x)) by {
            if done.contains(x) {
                let i = choose|i: int| 0 <= i < done.len() && done[i] == x;
                assert(q0[n - (j - 1) + i] == x);
            }
        }
        assert(table.contains_key(x));
        assert forall|id: usize| #[trigger] now.contains(id) <==> (id == x || done.contains(id)) by {
            if now.contains(id) {
                let i = choose|i: int| 0 <= i < now.len() && now[i] == id;
                if i > 0 {
                    assert(done[i - 1] == id);
                }
            }
            if done.contains(id) {
                let i = choose|i: int| 0 <= i < done.len() && done[i] == id;
                assert(now[i + 1] == id);
            }
            if id == x {
                assert(now[0] == id);
            }
        }
        assert(prev.0.insert(x, 0nat).dom() =~= table.dom());
    }
}

/// From spawn on: tasks that each report `NotReady` once and resolve when
/// polled after their wake, spawned so that each id is queued once, all
/// resolve, each to its value, whatever the order of wakes. The first drive
/// steps poll each task once; then, when every task is woken at least once
/// (in any order, with repeats and with ids of no task), each wake followed
/// by a drive step, the table and the queue end empty and the results are
/// the tasks' values, one per task.
pub proof fn lemma_spawned_tasks_all_resolve(
    table: Map<usize, nat>,
    queue: Seq<usize>,
    values: Map<usize, Seq<char>>,
    wakes: Seq<usize>,
)
    requires
        table.dom().finite(),
        forall|id: usize| #[trigger] table.contains_key(id) ==> table[id] == 1,
        queue.no_duplicates(),
        queue.to_set() == table.dom(),
        forall|id: usize| #[trigger] table.contains_key(id) ==> wakes.contains(id),
    ensures
        ({
            let end = run(
                table,
                queue,
                Map::empty(),
                values,
                drives(queue.len()) + wake_then_drive(wakes),
            );
            &&& end.0.len() == 0
            &&& end.1.len() == 0
            &&& end.2.dom() == table.dom()
            &&& end.2.len() == table.len()
            &&& forall|id: usize| #[trigger] table.contains_key(id) ==> end.2[id] == values[id]
        }),
{
    let n = queue.len();
    assert forall|i: int| 0 <= i < n implies table.contains_key(#[trigger] queue[i]) by {
        assert(queue.to_set().contains(queue[i]));
    }
    lemma_first_polls(table, queue, values, n);
    let mid = run(table, queue, Map::empty(), values, drives(n));
    assert(queue.subrange(0, n as int) =~= queue);
    assert(queue.subrange(0, 0) =~= Seq::<usize>::empty());
    assert forall|id: usize| #[trigger] mid.0.contains_key(id) implies mid.0[id] == 0 by {
        assert(table.dom().contains(id));
        assert(queue.to_set().contains(id));
    }
    assert forall|id: usize| #[trigger] mid.0.contains_key(id) implies wakes.contains(id) by {
        assert(table.dom().contains(id));
    }
    lemma_run_append(table, queue, Map::empty(), values, drives(n), wake_then_drive(wakes));
    assert(mid.1 =~= Seq::<usize>::empty());
    lemma_woken_tasks_all_resolve(mid.0, values, wakes);
    assert(mid.0.dom() =~= table.dom());
    let end = run(mid.0, mid.1, mid.2, values, wake_then_drive(wakes));
    assert forall|id: usize| #[trigger] table.contains_key(id) implies end.2[id] == values[id] by {
        assert(mid.0.dom().contains(id));
    }
}

/// Spawns a top-level computation: it gets the next id, enters the task
/// table under that id, and the id is pushed onto the ready queue.
pub fn spawn<T>(exec: &mut Executor<T>, queue: &mut ReadyQueue, future: T) -> (id: usize)
    requires
        old(exec).wf(),
        old(exec).next() < usize::MAX,
    ensures
        final(exec).wf(),
        id == old(exec).next(),
        !old(exec).tasks().contains_key(id),
        final(exec).next() == old(exec).next() + 1,
        final(exec).tasks() == old(exec).tasks().insert(id, future),
        final(queue)@ == old(queue)@.push(id),
{
    let id = exec.next_id;
    exec.next_id = id + 1;
    assert forall|k: usize| #[trigger] exec.tasks().contains_key(k) implies k < exec.next() by {
        assert(old(exec).tasks().contains_key(k));
    }
    exec.insert_task(id, future);
    queue.push(id);
    id
}

} // verus!
