//! The cooperative executor: a registry of spawned tasks, a bounded FIFO
//! run queue of task identifiers, and the drain loop that polls every
//! woken task.  A waker is data here — the identifier of its task — and
//! invoking it pushes that identifier onto the run queue; stale or
//! duplicate queue entries are skipped.  The executor's idle behaviour
//! (halting the CPU when the queue is empty, with interrupts re-enabled in
//! the same instruction) belongs to the hardware layer outside this crate,
//! which alternates `run_ready_tasks` with that halt.

use crate::keyboard::ScancodeBus;
use crate::queue::{id_queue_bound, id_queue_is_empty, id_queue_len, id_queue_new, id_queue_pop,
    id_queue_push, id_queue_view};
use crate::task::{Task, TaskId, TaskPoll};
use crossbeam_queue::ArrayQueue;
use vstd::prelude::*;

verus! {

/// Capacity of the run queue, sized to the expected number of concurrent
/// wake events; overflowing it is a fatal misconfiguration.
pub const RUN_QUEUE_CAPACITY: usize = 100;

/// The waker bound to one task: invoking it puts the task's identifier
/// back on the run queue.
#[derive(Clone, Copy, Debug, PartialEq, Eq, Structural)]
pub struct TaskWaker {
    pub task_id: TaskId,
}

impl TaskWaker {
    /// Wakes the task: enqueues its identifier.  The queue must have room;
    /// a failed wake push is a fatal bug in this design.
    pub fn wake_task(&self, task_queue: &mut ArrayQueue<u64>)
        requires
            id_queue_view(*old(task_queue)).len() < id_queue_bound(*old(task_queue)),
        ensures
            id_queue_view(*final(task_queue)) == id_queue_view(*old(task_queue)).push(
                self.task_id.id,
            ),
            id_queue_bound(*final(task_queue)) == id_queue_bound(*old(task_queue)),
    {
        let _pushed = id_queue_push(task_queue, self.task_id.id);
    }
}

/// What a poll hands the future: the waker bound to the task, and the
/// record of whether the future invoked it during this poll.  The executor
/// delivers a recorded wake to the run queue as soon as the poll returns.
pub struct PollContext {
    pub waker: TaskWaker,
    pub woken: bool,
}

impl PollContext {
    /// Invokes the waker: the task asks to be polled again.
    pub fn wake(&mut self)
        ensures
            *final(self) == (PollContext { waker: old(self).waker, woken: true }),
    {
        self.woken = true;
    }
}

/// One registry entry: a task and its lazily created cached waker.
pub struct TaskEntry {
    pub task: Task,
    pub waker: Option<TaskWaker>,
}

/// Whether some entry carries the identifier `id`.
pub open spec fn has_task(tasks: Seq<TaskEntry>, id: u64) -> bool {
    exists|j: int| 0 <= j < tasks.len() && #[trigger] tasks[j].task.id.id == id
}

/// The pending polls the registry still owes its yielding tasks; it bounds
/// how often the drain loop runs.
pub open spec fn tasks_potential(tasks: Seq<TaskEntry>) -> nat
    decreases tasks.len(),
{
    if tasks.len() == 0 {
        0
    } else {
        tasks[0].task.future.potential() + tasks_potential(tasks.drop_first())
    }
}

/// Removing the entry at `j` takes away exactly its potential.
proof fn lemma_potential_remove(tasks: Seq<TaskEntry>, j: int)
    requires
        0 <= j < tasks.len(),
    ensures
        tasks_potential(tasks.remove(j)) + tasks[j].task.future.potential() == tasks_potential(
            tasks,
        ),
    decreases j,
{
    if j == 0 {
        assert(tasks.remove(0) =~= tasks.drop_first());
    } else {
        assert(tasks.remove(j).drop_first() =~= tasks.drop_first().remove(j - 1));
        assert(tasks.remove(j)[0] == tasks[0]);
        lemma_potential_remove(tasks.drop_first(), j - 1);
    }
}

/// Inserting an entry at `j` adds exactly its potential.
proof fn lemma_potential_insert(tasks: Seq<TaskEntry>, j: int, e: TaskEntry)
    requires
        0 <= j <= tasks.len(),
    ensures
        tasks_potential(tasks.insert(j, e)) == tasks_potential(tasks)
            + e.task.future.potential(),
    decreases j,
{
    if j == 0 {
        assert(tasks.insert(0, e).drop_first() =~= tasks);
        assert(tasks.insert(0, e)[0] == e);
    } else {
        assert(tasks.insert(j, e)[0] == tasks[0]);
        assert(tasks.insert(j, e).drop_first() =~= tasks.drop_first().insert(j - 1, e));
        lemma_potential_insert(tasks.drop_first(), j - 1, e);
    }
}

/// How often the task `id` has been polled, by the executor's ghost record.
pub open spec fn polled(m: Map<u64, nat>, id: u64) -> nat {
    if m.dom().contains(id) {
        m[id]
    } else {
        0
    }
}

/// What one drain makes of a registry entry, given the queued wakes `q`: an
/// entry whose identifier was never woken is untouched; a woken keyboard
/// consumer stays registered, pending, with its waker cached; every other
/// woken task runs to completion and leaves the registry.
pub open spec fn entry_outcome(e: TaskEntry, q: Seq<u64>) -> Option<TaskEntry> {
    if !q.contains(e.task.id.id) {
        Some(e)
    } else if e.task.future is KeyboardEcho {
        Some(TaskEntry { task: e.task, waker: Some(TaskWaker { task_id: e.task.id }) })
    } else {
        None
    }
}

/// The registry after a drain of the wakes `q`, entry by entry, order kept.
pub open spec fn drained_tasks(tasks: Seq<TaskEntry>, q: Seq<u64>) -> Seq<TaskEntry>
    decreases tasks.len(),
{
    if tasks.len() == 0 {
        Seq::empty()
    } else {
        match entry_outcome(tasks[0], q) {
            Some(e) => seq![e] + drained_tasks(tasks.drop_first(), q),
            None => drained_tasks(tasks.drop_first(), q),
        }
    }
}

/// Whether some registered keyboard consumer has a queued wake.
pub open spec fn has_echo_queued(tasks: Seq<TaskEntry>, q: Seq<u64>) -> bool {
    exists|j: int|
        0 <= j < tasks.len() && (#[trigger] tasks[j]).task.future is KeyboardEcho && q.contains(
            tasks[j].task.id.id,
        )
}

/// Membership after popping a queue's head.
proof fn lemma_contains_drop_first(q: Seq<u64>, x: u64)
    requires
        q.len() > 0,
    ensures
        q.contains(x) <==> (q[0] == x || q.drop_first().contains(x)),
{
    if q.contains(x) {
        let i = choose|i: int| 0 <= i < q.len() && q[i] == x;
        if i > 0 {
            assert(q.drop_first()[i - 1] == x);
        }
    }
    if q.drop_first().contains(x) {
        let i = choose|i: int| 0 <= i < q.drop_first().len() && q.drop_first()[i] == x;
        assert(q[i + 1] == x);
    }
}

/// Membership after pushing at a queue's tail.
proof fn lemma_contains_push(q: Seq<u64>, v: u64, x: u64)
    ensures
        q.push(v).contains(x) <==> (q.contains(x) || x == v),
{
    if q.push(v).contains(x) {
        let i = choose|i: int| 0 <= i < q.push(v).len() && q.push(v)[i] == x;
        if i < q.len() {
            assert(q[i] == x);
        }
    }
    if q.contains(x) {
        let i = choose|i: int| 0 <= i < q.len() && q[i] == x;
        assert(q.push(v)[i] == x);
    }
    assert(q.push(v)[q.len() as int] == v);
}

/// Entry-wise equal outcomes give equal drained registries.
proof fn lemma_drained_congruent(
    ts1: Seq<TaskEntry>,
    q1: Seq<u64>,
    ts2: Seq<TaskEntry>,
    q2: Seq<u64>,
)
    requires
        ts1.len() == ts2.len(),
        forall|j: int|
            0 <= j < ts1.len() ==> entry_outcome(#[trigger] ts1[j], q1) == entry_outcome(
                #[trigger] ts2[j],
                q2,
            ),
    ensures
        drained_tasks(ts1, q1) == drained_tasks(ts2, q2),
    decreases ts1.len(),
{
    if ts1.len() > 0 {
        assert forall|j: int|
            0 <= j < ts1.drop_first().len() implies entry_outcome(
            #[trigger] ts1.drop_first()[j],
            q1,
        ) == entry_outcome(#[trigger] ts2.drop_first()[j], q2) by {
            assert(ts1.drop_first()[j] == ts1[j + 1]);
            assert(ts2.drop_first()[j] == ts2[j + 1]);
        }
        lemma_drained_congruent(ts1.drop_first(), q1, ts2.drop_first(), q2);
    }
}

/// Removing an entry that the drain completes anyway does not change the
/// drained registry.
proof fn lemma_drained_skip(ts: Seq<TaskEntry>, q: Seq<u64>, j: int)
    requires
        0 <= j < ts.len(),
        entry_outcome(ts[j], q) is None,
    ensures
        drained_tasks(ts.remove(j), q) == drained_tasks(ts, q),
    decreases j,
{
    if j == 0 {
        assert(ts.remove(0) =~= ts.drop_first());
    } else {
        assert(ts.remove(j)[0] == ts[0]);
        assert(ts.remove(j).drop_first() =~= ts.drop_first().remove(j - 1));
        lemma_drained_skip(ts.drop_first(), q, j - 1);
    }
}

/// A drain that touches no entry leaves the registry as it is.
proof fn lemma_drained_identity(ts: Seq<TaskEntry>, q: Seq<u64>)
    requires
        forall|j: int| 0 <= j < ts.len() ==> entry_outcome(#[trigger] ts[j], q) == Some(ts[j]),
    ensures
        drained_tasks(ts, q) == ts,
    decreases ts.len(),
{
    if ts.len() > 0 {
        assert forall|j: int|
            0 <= j < ts.drop_first().len() implies entry_outcome(
            #[trigger] ts.drop_first()[j],
            q,
        ) == Some(ts.drop_first()[j]) by {
            assert(ts.drop_first()[j] == ts[j + 1]);
        }
        lemma_drained_identity(ts.drop_first(), q);
        assert(seq![ts[0]] + ts.drop_first() =~= ts);
    }
}

/// The cooperative executor: the task registry and the run queue.
pub struct SleepingExecutor {
    pub tasks: Vec<TaskEntry>,
    pub task_queue: ArrayQueue<u64>,
    /// How often each task has been polled, by identifier; specification
    /// only.
    pub polls_by: Ghost<Map<u64, nat>>,
}

impl SleepingExecutor {
    /// The run queue's contents, oldest wake first.
    pub open spec fn queue(self) -> Seq<u64> {
        id_queue_view(self.task_queue)
    }

    /// Well-formed: identifiers are unique in the registry, every cached
    /// waker is bound to its own task, and the run queue respects its
    /// fixed capacity.
    pub open spec fn wf(self) -> bool {
        &&& forall|j: int, k: int|
            0 <= j < self.tasks@.len() && 0 <= k < self.tasks@.len() && j != k
                ==> #[trigger] self.tasks@[j].task.id.id != #[trigger] self.tasks@[k].task.id.id
        &&& forall|j: int|
            0 <= j < self.tasks@.len() ==> ((#[trigger] self.tasks@[j].waker) matches Some(w)
                ==> w.task_id == self.tasks@[j].task.id)
        &&& self.queue().len() <= id_queue_bound(self.task_queue)
        &&& id_queue_bound(self.task_queue) == RUN_QUEUE_CAPACITY as nat
    }

    /// An executor with no tasks and an empty run queue.
    pub fn new() -> (r: SleepingExecutor)
        ensures
            r.wf(),
            r.tasks@.len() == 0,
            r.queue().len() == 0,
            r.polls_by@ == Map::<u64, nat>::empty(),
    {
        SleepingExecutor {
            tasks: Vec::new(),
            task_queue: id_queue_new(RUN_QUEUE_CAPACITY),
            polls_by: Ghost(Map::empty()),
        }
    }

    /// Registers the task and queues its first poll.  The identifier must
    /// be fresh — identifiers are never reused, so a duplicate is a bug —
    /// and the run queue must have room.
    pub fn spawn(&mut self, task: Task)
        requires
            old(self).wf(),
            forall|j: int|
                0 <= j < old(self).tasks@.len() ==> (#[trigger] old(
                    self,
                ).tasks@[j].task.id.id) != task.id.id,
            old(self).queue().len() < id_queue_bound(old(self).task_queue),
        ensures
            final(self).wf(),
            final(self).tasks@ == old(self).tasks@.push(
                TaskEntry { task, waker: None::<TaskWaker> },
            ),
            final(self).queue() == old(self).queue().push(task.id.id),
            final(self).polls_by == old(self).polls_by,
    {
        let task_id = task.id;
        self.tasks.push(TaskEntry { task, waker: None });
        let _pushed = id_queue_push(&mut self.task_queue, task_id.id);
    }

    /// The index of the task registered under `id`, if any.
    fn find_task(&self, id: u64) -> (r: Option<usize>)
        ensures
            (match r {
                Some(j) => j < self.tasks@.len() && self.tasks@[j as int].task.id.id == id,
                None => !has_task(self.tasks@, id),
            }),
    {
        let mut j: usize = 0;
        while j < self.tasks.len()
            invariant
                0 <= j <= self.tasks@.len(),
                forall|k: int| 0 <= k < j ==> #[trigger] self.tasks@[k].task.id.id != id,
            decreases self.tasks@.len() - j,
        {
            if self.tasks[j].task.id.id == id {
                return Some(j);
            }
            j = j + 1;
        }
        None
    }

    /// How many tasks the registry holds; a completed task leaves it the
    /// moment its poll reports ready.
    pub fn task_count(&self) -> (r: usize)
        ensures
            r == self.tasks@.len(),
    {
        self.tasks.len()
    }

    /// Whether the run queue is empty: the idle decision.  The hardware
    /// layer halts the CPU exactly when this holds, re-enabling interrupts
    /// and halting in one step so a wake between check and halt is not
    /// lost.
    pub fn queue_is_empty(&self) -> (r: bool)
        ensures
            r == (self.queue().len() == 0),
    {
        id_queue_is_empty(&self.task_queue)
    }

    /// How many wakes the run queue holds.  An unverified caller tests
    /// this for room before `spawn` or before a wake-carrying scancode
    /// delivery, and fails as the kernel does when the queue would
    /// overflow.
    pub fn queue_len(&self) -> (r: usize)
        ensures
            r == self.queue().len(),
    {
        id_queue_len(&self.task_queue)
    }

    /// Drains the run queue: pops identifiers until the queue is empty,
    /// skipping stale ones, polling each task that is still registered
    /// (creating its cached waker on first use), delivering any wake the
    /// poll recorded, and removing a task — its future and cached waker
    /// with it — the moment it reports ready, before any further task is
    /// polled.
    #[verifier::rlimit(100)]
    #[verifier::spinoff_prover]
    pub fn run_ready_tasks(&mut self, bus: &mut ScancodeBus, sink: &mut Vec<u8>)
        requires
            old(self).wf(),
            old(bus)@.inited(),
            old(bus)@.wf(),
        ensures
            final(self).wf(),
            final(bus)@.inited(),
            final(bus)@.wf(),
            final(bus)@.cap == old(bus)@.cap,
            final(self).queue().len() == 0,
            // What the drain makes of the registry, entry by entry: a task
            // that was never woken is untouched, a woken keyboard consumer
            // stays registered (pending, its waker cached), and every other
            // woken task runs to completion and is removed.
            final(self).tasks@ == drained_tasks(old(self).tasks@, old(self).queue()),
            forall|id: u64| has_task(final(self).tasks@, id) ==> has_task(old(self).tasks@, id),
            // The keyboard consumer, exactly when it was woken, moves every
            // queued scancode to the sink in arrival order, leaves the
            // scancode queue empty and its waker registered; otherwise the
            // sink and the scancode pipeline are untouched.
            (if has_echo_queued(old(self).tasks@, old(self).queue()) {
                &&& final(sink)@ == old(sink)@ + old(bus)@.scancodes()
                &&& final(bus)@.queue == Some(Seq::<u8>::empty())
                &&& final(bus)@.waker is Some
            } else {
                &&& final(sink)@ == old(sink)@
                &&& final(bus)@ == old(bus)@
            }),
            // Executor liveness, task by task: a woken task that is not the
            // keyboard consumer is polled exactly its potential + 1 times —
            // at most k + 1 polls for a task that yields k times — and a
            // task that was never woken is not polled at all.
            forall|k: int|
                0 <= k < old(self).tasks@.len() && !((#[trigger] old(
                    self,
                ).tasks@[k]).task.future is KeyboardEcho) ==> polled(
                    final(self).polls_by@,
                    old(self).tasks@[k].task.id.id,
                ) == polled(old(self).polls_by@, old(self).tasks@[k].task.id.id) + (if old(
                    self,
                ).queue().contains(old(self).tasks@[k].task.id.id) {
                    old(self).tasks@[k].task.future.potential() + 1
                } else {
                    0
                }),
            forall|idk: u64|
                !has_task(old(self).tasks@, idk) ==> polled(final(self).polls_by@, idk) == polled(
                    old(self).polls_by@,
                    idk,
                ),
    {
        let ghost m0 = self.polls_by@;
        let ghost mut echo_polled: bool = false;
        loop
            invariant
                self.wf(),
                old(self).wf(),
                bus@.inited(),
                bus@.wf(),
                bus@.cap == old(bus)@.cap,
                m0 == old(self).polls_by@,
                // An identifier keeps its kind: a registered entry is the
                // keyboard consumer exactly when the old entry of the same
                // identifier was.
                forall|j2: int, k2: int|
                    #![trigger self.tasks@[j2], old(self).tasks@[k2]]
                    0 <= j2 < self.tasks@.len() && 0 <= k2 < old(self).tasks@.len()
                        && self.tasks@[j2].task.id.id == old(self).tasks@[k2].task.id.id ==> (
                    self.tasks@[j2].task.future is KeyboardEcho <==> old(
                        self,
                    ).tasks@[k2].task.future is KeyboardEcho),
                forall|id: u64| has_task(self.tasks@, id) ==> has_task(old(self).tasks@, id),
                drained_tasks(self.tasks@, self.queue()) == drained_tasks(
                    old(self).tasks@,
                    old(self).queue(),
                ),
                !has_echo_queued(old(self).tasks@, old(self).queue()) ==> !has_echo_queued(
                    self.tasks@,
                    self.queue(),
                ),
                !echo_polled ==> sink@ == old(sink)@ && bus@ == old(bus)@,
                !echo_polled && has_echo_queued(old(self).tasks@, old(self).queue())
                    ==> has_echo_queued(self.tasks@, self.queue()),
                echo_polled ==> has_echo_queued(old(self).tasks@, old(self).queue()) && sink@
                    == old(sink)@ + old(bus)@.scancodes() && bus@.queue == Some(
                    Seq::<u8>::empty(),
                ) && bus@.waker is Some,
                // Ghost poll counters: an identifier outside the old
                // registry is never polled; a registered task that was
                // never woken has not been polled and holds no queued wake;
                // a woken one has been polled once per potential it has
                // shed so far and keeps a queued wake until it completes.
                forall|idk: u64|
                    !has_task(old(self).tasks@, idk) ==> polled(self.polls_by@, idk) == polled(
                        m0,
                        idk,
                    ),
                forall|j: int|
                    0 <= j < self.tasks@.len() && !((#[trigger] self.tasks@[j])
                        .task.future is KeyboardEcho) ==> {
                        let x = self.tasks@[j].task.id.id;
                        if !old(self).queue().contains(x) {
                            polled(self.polls_by@, x) == polled(m0, x) && !self.queue().contains(x)
                        } else {
                            self.queue().contains(x) && exists|k: int|
                                0 <= k < old(self).tasks@.len() && (#[trigger] old(
                                    self,
                                ).tasks@[k]).task.id.id == x && !(old(
                                    self,
                                ).tasks@[k].task.future is KeyboardEcho) && polled(
                                    self.polls_by@,
                                    x,
                                ) + self.tasks@[j].task.future.potential() == polled(m0, x) + old(
                                    self,
                                ).tasks@[k].task.future.potential()
                        }
                    },
                forall|k: int|
                    0 <= k < old(self).tasks@.len() && !((#[trigger] old(
                        self,
                    ).tasks@[k]).task.future is KeyboardEcho) && !has_task(
                        self.tasks@,
                        old(self).tasks@[k].task.id.id,
                    ) ==> old(self).queue().contains(old(self).tasks@[k].task.id.id) && polled(
                        self.polls_by@,
                        old(self).tasks@[k].task.id.id,
                    ) == polled(m0, old(self).tasks@[k].task.id.id) + old(
                        self,
                    ).tasks@[k].task.future.potential() + 1,
            decreases self.queue().len() + tasks_potential(self.tasks@),
        {
            let ghost qb = self.queue();
            let popped = id_queue_pop(&mut self.task_queue);
            let id = match popped {
                Some(id) => id,
                None => {
                    proof {
                        // Nothing is queued: the drain of what remains is
                        // the identity, and any consumer wake must already
                        // have been served.
                        assert forall|j: int|
                            0 <= j < self.tasks@.len() implies entry_outcome(
                            #[trigger] self.tasks@[j],
                            self.queue(),
                        ) == Some(self.tasks@[j]) by {
                            assert(!self.queue().contains(self.tasks@[j].task.id.id));
                        }
                        lemma_drained_identity(self.tasks@, self.queue());
                        assert(!has_echo_queued(self.tasks@, self.queue()));
                        // Per-task poll counts: a task still registered was
                        // never woken (a woken one would still hold a
                        // queued wake), so it was not polled; a woken task
                        // is gone and was polled potential + 1 times.
                        assert forall|k: int|
                            0 <= k < old(self).tasks@.len() && !((#[trigger] old(
                                self,
                            ).tasks@[k]).task.future is KeyboardEcho) implies polled(
                            self.polls_by@,
                            old(self).tasks@[k].task.id.id,
                        ) == polled(m0, old(self).tasks@[k].task.id.id) + (if old(
                            self,
                        ).queue().contains(old(self).tasks@[k].task.id.id) {
                            old(self).tasks@[k].task.future.potential() + 1
                        } else {
                            0nat
                        }) by {
                            let x = old(self).tasks@[k].task.id.id;
                            if has_task(self.tasks@, x) {
                                let jx = choose|jx: int|
                                    0 <= jx < self.tasks@.len()
                                        && #[trigger] self.tasks@[jx].task.id.id == x;
                                assert(self.tasks@[jx].task.id.id == old(
                                    self,
                                ).tasks@[k].task.id.id);
                                assert(!(self.tasks@[jx].task.future is KeyboardEcho));
                                if old(self).queue().contains(x) {
                                    assert(self.queue().contains(x));
                                }
                            }
                        }
                    }
                    return ;
                },
            };
            let ghost q2 = self.queue();
            let j = match self.find_task(id) {
                Some(j) => j,
                None => {
                    // A stale wake: the task completed earlier; skipping it
                    // changes nothing.
                    proof {
                        assert forall|j2: int|
                            0 <= j2 < self.tasks@.len() implies entry_outcome(
                            #[trigger] self.tasks@[j2],
                            qb,
                        ) == entry_outcome(#[trigger] self.tasks@[j2], q2) by {
                            assert(self.tasks@[j2].task.id.id != id);
                            lemma_contains_drop_first(qb, self.tasks@[j2].task.id.id);
                        }
                        lemma_drained_congruent(self.tasks@, qb, self.tasks@, q2);
                        if has_echo_queued(self.tasks@, qb) {
                            let je = choose|je: int|
                                0 <= je < self.tasks@.len() && (#[trigger] self.tasks@[je])
                                    .task.future is KeyboardEcho && qb.contains(
                                    self.tasks@[je].task.id.id,
                                );
                            lemma_contains_drop_first(qb, self.tasks@[je].task.id.id);
                            assert(has_echo_queued(self.tasks@, q2));
                        }
                        if has_echo_queued(self.tasks@, q2) {
                            let je = choose|je: int|
                                0 <= je < self.tasks@.len() && (#[trigger] self.tasks@[je])
                                    .task.future is KeyboardEcho && q2.contains(
                                    self.tasks@[je].task.id.id,
                                );
                            lemma_contains_drop_first(qb, self.tasks@[je].task.id.id);
                            assert(has_echo_queued(self.tasks@, qb));
                        }
                        assert forall|j2: int|
                            0 <= j2 < self.tasks@.len() && !((#[trigger] self.tasks@[j2])
                                .task.future is KeyboardEcho) && self.queue().contains(
                            self.tasks@[j2].task.id.id,
                        ) implies qb.contains(self.tasks@[j2].task.id.id) by {
                            lemma_contains_drop_first(qb, self.tasks@[j2].task.id.id);
                        }
                        assert forall|j2: int|
                            0 <= j2 < self.tasks@.len() && !((#[trigger] self.tasks@[j2])
                                .task.future is KeyboardEcho) && qb.contains(
                            self.tasks@[j2].task.id.id,
                        ) implies self.queue().contains(self.tasks@[j2].task.id.id) by {
                            assert(self.tasks@[j2].task.id.id != id);
                            lemma_contains_drop_first(qb, self.tasks@[j2].task.id.id);
                        }
                    }
                    continue ;
                },
            };
            let ghost tasks0 = self.tasks@;
            let mut entry = self.tasks.remove(j);
            proof {
                lemma_potential_remove(tasks0, j as int);
            }
            // Create the cached waker on first use.
            if entry.waker.is_none() {
                entry.waker = Some(TaskWaker { task_id: entry.task.id });
            }
            let ghost fut0 = entry.task.future;
            proof {
                assert(qb.contains(id)) by {
                    assert(qb[0] == id);
                }
                assert(entry == (TaskEntry {
                    task: tasks0[j as int].task,
                    waker: Some(TaskWaker { task_id: tasks0[j as int].task.id }),
                }));
                // A woken task was woken from the start: a never-woken one
                // holds no queued wake at all.
                if !(fut0 is KeyboardEcho) {
                    assert(old(self).queue().contains(id));
                }
            }
            let mut cx = PollContext {
                waker: TaskWaker { task_id: entry.task.id },
                woken: false,
            };
            let res = entry.task.poll(&mut cx, bus, sink);
            let ghost mpre = self.polls_by@;
            self.polls_by = Ghost(
                self.polls_by@.insert(id, polled(self.polls_by@, id) + 1),
            );
            proof {
                // The polled task was woken from the start: a never-woken
                // non-consumer holds no queued wake, yet `id` headed the
                // queue; and its identifier names a unique old entry.
                if !(fut0 is KeyboardEcho) {
                    assert(old(self).queue().contains(id));
                }
                assert(has_task(tasks0, id)) by {
                    assert(tasks0[j as int].task.id.id == id);
                }
                assert(has_task(old(self).tasks@, id));
            }
            if cx.woken {
                // Deliver the wake the poll recorded: the pop above made
                // room, so the push cannot fail.
                match &entry.waker {
                    Some(w) => w.wake_task(&mut self.task_queue),
                    None => (),
                }
            }
            match res {
                TaskPoll::Ready => {
                    // The entry — future and cached waker — is dropped
                    // here, before any other task is polled.
                    proof {
                        assert forall|idq: u64| has_task(self.tasks@, idq) implies has_task(
                            tasks0,
                            idq,
                        ) by {
                            let j2 = choose|j2: int|
                                0 <= j2 < self.tasks@.len() && #[trigger] self.tasks@[j2].task.id.id
                                    == idq;
                            if j2 < j {
                                assert(tasks0[j2].task.id.id == idq);
                            } else {
                                assert(tasks0[j2 + 1].task.id.id == idq);
                            }
                        }
                        // Only a completing future returns ready, so this
                        // entry is exactly one the drain removes, and it
                        // completes with no potential left.
                        assert(!(fut0 is KeyboardEcho));
                        assert(fut0.potential() == 0);
                        assert(entry_outcome(tasks0[j as int], qb) is None);
                        lemma_drained_skip(tasks0, qb, j as int);
                        assert forall|j2: int|
                            0 <= j2 < self.tasks@.len() implies entry_outcome(
                            #[trigger] self.tasks@[j2],
                            qb,
                        ) == entry_outcome(#[trigger] self.tasks@[j2], q2) by {
                            if j2 < j {
                                assert(self.tasks@[j2] == tasks0[j2]);
                                assert(tasks0[j2].task.id.id != tasks0[j as int].task.id.id);
                            } else {
                                assert(self.tasks@[j2] == tasks0[j2 + 1]);
                                assert(tasks0[j2 + 1].task.id.id != tasks0[j as int].task.id.id);
                            }
                            lemma_contains_drop_first(qb, self.tasks@[j2].task.id.id);
                        }
                        lemma_drained_congruent(self.tasks@, qb, self.tasks@, q2);
                        if has_echo_queued(tasks0, qb) {
                            let je = choose|je: int|
                                0 <= je < tasks0.len() && (#[trigger] tasks0[je])
                                    .task.future is KeyboardEcho && qb.contains(
                                    tasks0[je].task.id.id,
                                );
                            lemma_contains_drop_first(qb, tasks0[je].task.id.id);
                            let jn = if je < j {
                                je
                            } else {
                                je - 1
                            };
                            assert(self.tasks@[jn] == tasks0[je]);
                            assert(has_echo_queued(self.tasks@, q2));
                        }
                        if has_echo_queued(self.tasks@, q2) {
                            let je = choose|je: int|
                                0 <= je < self.tasks@.len() && (#[trigger] self.tasks@[je])
                                    .task.future is KeyboardEcho && q2.contains(
                                    self.tasks@[je].task.id.id,
                                );
                            lemma_contains_drop_first(qb, self.tasks@[je].task.id.id);
                            let jo = if je < j {
                                je
                            } else {
                                je + 1
                            };
                            assert(tasks0[jo] == self.tasks@[je]);
                            assert(has_echo_queued(tasks0, qb));
                        }
                        // Poll counters: the completed task reaches exactly
                        // potential + 1 polls; every other identifier keeps
                        // its count and its queued-wake status.
                        let kk = choose|kk: int|
                            0 <= kk < old(self).tasks@.len() && (#[trigger] old(
                                self,
                            ).tasks@[kk]).task.id.id == id && !(old(
                                self,
                            ).tasks@[kk].task.future is KeyboardEcho) && polled(mpre, id)
                                + tasks0[j as int].task.future.potential() == polled(m0, id) + old(
                                self,
                            ).tasks@[kk].task.future.potential();
                        assert(polled(self.polls_by@, id) == polled(m0, id) + old(
                            self,
                        ).tasks@[kk].task.future.potential() + 1);
                        assert forall|idk: u64|
                            !has_task(old(self).tasks@, idk) implies polled(
                            self.polls_by@,
                            idk,
                        ) == polled(m0, idk) by {
                            assert(idk != id);
                        }
                        let cur = self.tasks@;
                        assert forall|j2: int|
                            0 <= j2 < cur.len() && !((#[trigger] cur[j2])
                                .task.future is KeyboardEcho) implies ({
                            let x = cur[j2].task.id.id;
                            if !old(self).queue().contains(x) {
                                polled(self.polls_by@, x) == polled(m0, x) && !q2.contains(x)
                            } else {
                                q2.contains(x) && exists|k2: int|
                                    0 <= k2 < old(self).tasks@.len() && (#[trigger] old(
                                        self,
                                    ).tasks@[k2]).task.id.id == x && !(old(
                                        self,
                                    ).tasks@[k2].task.future is KeyboardEcho) && polled(
                                        self.polls_by@,
                                        x,
                                    ) + cur[j2].task.future.potential() == polled(m0, x) + old(
                                        self,
                                    ).tasks@[k2].task.future.potential()
                            }
                        }) by {
                            let jj = if j2 < j {
                                j2
                            } else {
                                j2 + 1
                            };
                            assert(cur[j2] == tasks0[jj]);
                            assert(tasks0[jj].task.id.id != id);
                            lemma_contains_drop_first(qb, cur[j2].task.id.id);
                        }
                        assert forall|k2: int|
                            0 <= k2 < old(self).tasks@.len() && !((#[trigger] old(
                                self,
                            ).tasks@[k2]).task.future is KeyboardEcho) && !has_task(
                            cur,
                            old(self).tasks@[k2].task.id.id,
                        ) implies old(self).queue().contains(old(self).tasks@[k2].task.id.id)
                            && polled(self.polls_by@, old(self).tasks@[k2].task.id.id) == polled(
                            m0,
                            old(self).tasks@[k2].task.id.id,
                        ) + old(self).tasks@[k2].task.future.potential() + 1 by {
                            let x = old(self).tasks@[k2].task.id.id;
                            if x == id {
                                assert(old(self).tasks@[kk].task.id.id == old(
                                    self,
                                ).tasks@[k2].task.id.id);
                                assert(kk == k2);
                            } else {
                                if has_task(tasks0, x) {
                                    let jj = choose|jj: int|
                                        0 <= jj < tasks0.len()
                                            && #[trigger] tasks0[jj].task.id.id == x;
                                    assert(jj != j);
                                    let jn = if jj < j {
                                        jj
                                    } else {
                                        jj - 1
                                    };
                                    assert(cur[jn] == tasks0[jj]);
                                    assert(has_task(cur, x));
                                }
                            }
                        }
                        assert forall|j2: int, k2: int|
                            #![trigger cur[j2], old(self).tasks@[k2]]
                            0 <= j2 < cur.len() && 0 <= k2 < old(self).tasks@.len()
                                && cur[j2].task.id.id == old(self).tasks@[k2].task.id.id implies (
                        cur[j2].task.future is KeyboardEcho <==> old(
                            self,
                        ).tasks@[k2].task.future is KeyboardEcho) by {
                            let jj = if j2 < j {
                                j2
                            } else {
                                j2 + 1
                            };
                            assert(cur[j2] == tasks0[jj]);
                        }
                    }
                },
                TaskPoll::Pending => {
                    let ghost tasks1 = self.tasks@;
                    let ghost e = entry;
                    self.tasks.insert(j, entry);
                    proof {
                        lemma_potential_insert(tasks1, j as int, e);
                        assert(self.tasks@ =~= tasks0.update(j as int, e));
                        assert forall|j2: int, k2: int|
                            #![trigger self.tasks@[j2], old(self).tasks@[k2]]
                            0 <= j2 < self.tasks@.len() && 0 <= k2 < old(self).tasks@.len()
                                && self.tasks@[j2].task.id.id == old(
                                self,
                            ).tasks@[k2].task.id.id implies (
                        self.tasks@[j2].task.future is KeyboardEcho <==> old(
                            self,
                        ).tasks@[k2].task.future is KeyboardEcho) by {
                            if j2 == j {
                                assert(self.tasks@[j2].task.id.id == tasks0[j as int].task.id.id);
                                assert(self.tasks@[j2].task.future is KeyboardEcho
                                    <==> tasks0[j as int].task.future is KeyboardEcho);
                            } else {
                                assert(self.tasks@[j2] == tasks0[j2]);
                            }
                        }
                        assert forall|idq: u64| has_task(self.tasks@, idq) implies has_task(
                            tasks0,
                            idq,
                        ) by {
                            let j2 = choose|j2: int|
                                0 <= j2 < self.tasks@.len() && #[trigger] self.tasks@[j2].task.id.id
                                    == idq;
                            assert(tasks0[j2].task.id.id == idq);
                        }
                        let cur = self.tasks@;
                        let qn = self.queue();
                        if fut0 is Yielding {
                            // The yielding task re-queued itself; under
                            // either queue it is an entry the drain removes.
                            assert(qn == q2.push(id));
                            assert(entry_outcome(tasks0[j as int], qb) is None);
                            lemma_drained_skip(tasks0, qb, j as int);
                            assert(entry_outcome(cur[j as int], qn) is None) by {
                                lemma_contains_push(q2, id, id);
                            }
                            lemma_drained_skip(cur, qn, j as int);
                            assert(cur.remove(j as int) =~= tasks0.remove(j as int));
                            assert forall|j2: int|
                                0 <= j2 < tasks0.remove(j as int).len() implies entry_outcome(
                                #[trigger] tasks0.remove(j as int)[j2],
                                qb,
                            ) == entry_outcome(#[trigger] tasks0.remove(j as int)[j2], qn) by {
                                let x = tasks0.remove(j as int)[j2].task.id.id;
                                if j2 < j {
                                    assert(tasks0.remove(j as int)[j2] == tasks0[j2]);
                                    assert(x != tasks0[j as int].task.id.id);
                                } else {
                                    assert(tasks0.remove(j as int)[j2] == tasks0[j2 + 1]);
                                    assert(x != tasks0[j as int].task.id.id);
                                }
                                lemma_contains_drop_first(qb, x);
                                lemma_contains_push(q2, id, x);
                            }
                            lemma_drained_congruent(
                                tasks0.remove(j as int),
                                qb,
                                tasks0.remove(j as int),
                                qn,
                            );
                            if has_echo_queued(tasks0, qb) {
                                let je = choose|je: int|
                                    0 <= je < tasks0.len() && (#[trigger] tasks0[je])
                                        .task.future is KeyboardEcho && qb.contains(
                                        tasks0[je].task.id.id,
                                    );
                                lemma_contains_drop_first(qb, tasks0[je].task.id.id);
                                lemma_contains_push(q2, id, tasks0[je].task.id.id);
                                assert(cur[je] == tasks0[je]);
                                assert(has_echo_queued(cur, qn));
                            }
                            if has_echo_queued(cur, qn) {
                                let je = choose|je: int|
                                    0 <= je < cur.len() && (#[trigger] cur[je])
                                        .task.future is KeyboardEcho && qn.contains(
                                        cur[je].task.id.id,
                                    );
                                assert(je != j);
                                assert(cur[je] == tasks0[je]);
                                lemma_contains_push(q2, id, cur[je].task.id.id);
                                lemma_contains_drop_first(qb, cur[je].task.id.id);
                                assert(has_echo_queued(tasks0, qb));
                            }
                            // Poll counters: the yielding task shed one
                            // potential for this poll and re-queued itself;
                            // everything else is untouched.
                            assert(old(self).queue().contains(id));
                            let kk = choose|kk: int|
                                0 <= kk < old(self).tasks@.len() && (#[trigger] old(
                                    self,
                                ).tasks@[kk]).task.id.id == id && !(old(
                                    self,
                                ).tasks@[kk].task.future is KeyboardEcho) && polled(mpre, id)
                                    + tasks0[j as int].task.future.potential() == polled(m0, id)
                                    + old(self).tasks@[kk].task.future.potential();
                            assert(cur[j as int].task.future.potential() + 1 == fut0.potential());
                            assert forall|idk: u64|
                                !has_task(old(self).tasks@, idk) implies polled(
                                self.polls_by@,
                                idk,
                            ) == polled(m0, idk) by {
                                assert(idk != id);
                            }
                            assert forall|j2: int|
                                0 <= j2 < cur.len() && !((#[trigger] cur[j2])
                                    .task.future is KeyboardEcho) implies ({
                                let x = cur[j2].task.id.id;
                                if !old(self).queue().contains(x) {
                                    polled(self.polls_by@, x) == polled(m0, x) && !qn.contains(x)
                                } else {
                                    qn.contains(x) && exists|k2: int|
                                        0 <= k2 < old(self).tasks@.len() && (#[trigger] old(
                                            self,
                                        ).tasks@[k2]).task.id.id == x && !(old(
                                            self,
                                        ).tasks@[k2].task.future is KeyboardEcho) && polled(
                                            self.polls_by@,
                                            x,
                                        ) + cur[j2].task.future.potential() == polled(m0, x) + old(
                                            self,
                                        ).tasks@[k2].task.future.potential()
                                }
                            }) by {
                                let x = cur[j2].task.id.id;
                                if j2 == j {
                                    lemma_contains_push(q2, id, id);
                                } else {
                                    assert(cur[j2] == tasks0[j2]);
                                    assert(x != id);
                                    lemma_contains_drop_first(qb, x);
                                    lemma_contains_push(q2, id, x);
                                }
                            }
                            assert forall|k2: int|
                                0 <= k2 < old(self).tasks@.len() && !((#[trigger] old(
                                    self,
                                ).tasks@[k2]).task.future is KeyboardEcho) && !has_task(
                                cur,
                                old(self).tasks@[k2].task.id.id,
                            ) implies old(self).queue().contains(old(self).tasks@[k2].task.id.id)
                                && polled(self.polls_by@, old(self).tasks@[k2].task.id.id)
                                == polled(m0, old(self).tasks@[k2].task.id.id) + old(
                                self,
                            ).tasks@[k2].task.future.potential() + 1 by {
                                let x = old(self).tasks@[k2].task.id.id;
                                assert(x != id) by {
                                    if x == id {
                                        assert(cur[j as int].task.id.id == x);
                                        assert(has_task(cur, x));
                                    }
                                }
                                if has_task(tasks0, x) {
                                    let jj = choose|jj: int|
                                        0 <= jj < tasks0.len()
                                            && #[trigger] tasks0[jj].task.id.id == x;
                                    assert(jj != j);
                                    assert(cur[jj] == tasks0[jj]);
                                    assert(has_task(cur, x));
                                }
                            }
                        } else {
                            // The keyboard consumer: it stays registered
                            // with its waker cached, which is exactly the
                            // entry the drain keeps for it.
                            assert(qn == q2);
                            assert forall|j2: int|
                                0 <= j2 < tasks0.len() implies entry_outcome(
                                #[trigger] tasks0[j2],
                                qb,
                            ) == entry_outcome(#[trigger] cur[j2], qn) by {
                                if j2 == j {
                                    assert(entry_outcome(tasks0[j2], qb) == Some(e));
                                    assert(entry_outcome(cur[j2], qn) == Some(e));
                                } else {
                                    assert(cur[j2] == tasks0[j2]);
                                    assert(tasks0[j2].task.id.id != tasks0[j as int].task.id.id);
                                    lemma_contains_drop_first(qb, tasks0[j2].task.id.id);
                                }
                            }
                            lemma_drained_congruent(tasks0, qb, cur, qn);
                            // The consumer's wake was queued, so a consumer
                            // wake existed from the start.
                            assert(has_echo_queued(tasks0, qb));
                            if !has_echo_queued(old(self).tasks@, old(self).queue()) {
                                assert(false);
                            }
                            if echo_polled {
                                // A further consumer poll finds the queue
                                // it emptied before and adds nothing.
                                assert(sink@ =~= old(sink)@ + old(bus)@.scancodes());
                            }
                            if has_echo_queued(cur, qn) {
                                let je = choose|je: int|
                                    0 <= je < cur.len() && (#[trigger] cur[je])
                                        .task.future is KeyboardEcho && qn.contains(
                                        cur[je].task.id.id,
                                    );
                                if je != j {
                                    assert(cur[je] == tasks0[je]);
                                }
                                lemma_contains_drop_first(qb, cur[je].task.id.id);
                                assert(has_echo_queued(tasks0, qb));
                            }
                            // Poll counters of the non-consumer tasks are
                            // untouched, and so is their queued-wake status.
                            assert forall|idk: u64|
                                !has_task(old(self).tasks@, idk) implies polled(
                                self.polls_by@,
                                idk,
                            ) == polled(m0, idk) by {
                                assert(idk != id);
                            }
                            assert forall|j2: int|
                                0 <= j2 < cur.len() && !((#[trigger] cur[j2])
                                    .task.future is KeyboardEcho) implies ({
                                let x = cur[j2].task.id.id;
                                if !old(self).queue().contains(x) {
                                    polled(self.polls_by@, x) == polled(m0, x) && !qn.contains(x)
                                } else {
                                    qn.contains(x) && exists|k2: int|
                                        0 <= k2 < old(self).tasks@.len() && (#[trigger] old(
                                            self,
                                        ).tasks@[k2]).task.id.id == x && !(old(
                                            self,
                                        ).tasks@[k2].task.future is KeyboardEcho) && polled(
                                            self.polls_by@,
                                            x,
                                        ) + cur[j2].task.future.potential() == polled(m0, x) + old(
                                            self,
                                        ).tasks@[k2].task.future.potential()
                                }
                            }) by {
                                assert(j2 != j);
                                assert(cur[j2] == tasks0[j2]);
                                assert(cur[j2].task.id.id != id);
                                lemma_contains_drop_first(qb, cur[j2].task.id.id);
                            }
                            assert forall|k2: int|
                                0 <= k2 < old(self).tasks@.len() && !((#[trigger] old(
                                    self,
                                ).tasks@[k2]).task.future is KeyboardEcho) && !has_task(
                                cur,
                                old(self).tasks@[k2].task.id.id,
                            ) implies old(self).queue().contains(old(self).tasks@[k2].task.id.id)
                                && polled(self.polls_by@, old(self).tasks@[k2].task.id.id)
                                == polled(m0, old(self).tasks@[k2].task.id.id) + old(
                                self,
                            ).tasks@[k2].task.future.potential() + 1 by {
                                let x = old(self).tasks@[k2].task.id.id;
                                assert(x != id) by {
                                    if x == id {
                                        assert(cur[j as int].task.id.id == x);
                                        assert(has_task(cur, x));
                                    }
                                }
                                if has_task(tasks0, x) {
                                    let jj = choose|jj: int|
                                        0 <= jj < tasks0.len()
                                            && #[trigger] tasks0[jj].task.id.id == x;
                                    if jj != j {
                                        assert(cur[jj] == tasks0[jj]);
                                        assert(has_task(cur, x));
                                    }
                                }
                            }
                            echo_polled = true;
                        }
                    }
                },
            }
        }
    }
}

} // verus!
