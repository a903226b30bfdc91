//! The task model: unique task identifiers, the futures the kernel runs as
//! explicit state machines, and the task that pairs one with its
//! identifier.  A poll either completes the task or leaves it pending, and
//! a pending task is polled again only after its waker has run.

use crate::executor::PollContext;
use crate::keyboard::{BusState, ScancodeBus, ScancodeStream};
use vstd::prelude::*;

verus! {

/// Identifier of a spawned task: unique for the kernel's lifetime.
#[derive(Clone, Copy, Debug, PartialEq, Eq, Structural)]
pub struct TaskId {
    pub id: u64,
}

/// The monotone counter that hands out fresh task identifiers.  In the
/// kernel it is a process-wide atomic; relaxed ordering suffices there
/// because only uniqueness matters.
pub struct TaskIdCounter {
    pub next: u64,
}

impl TaskIdCounter {
    /// Starts counting at zero.
    pub fn new() -> (r: TaskIdCounter)
        ensures
            r.next == 0,
    {
        TaskIdCounter { next: 0 }
    }
}

impl TaskId {
    /// A fresh identifier: larger than every identifier handed out before.
    pub fn new(counter: &mut TaskIdCounter) -> (r: TaskId)
        requires
            old(counter).next < u64::MAX,
        ensures
            r.id == old(counter).next,
            final(counter).next == old(counter).next + 1,
    {
        let id = counter.next;
        counter.next = counter.next + 1;
        TaskId { id }
    }
}

/// What one poll of a task reports.
#[derive(Clone, Copy, Debug, PartialEq, Eq, Structural)]
pub enum TaskPoll {
    /// The task is complete; the executor discards it.
    Ready,
    /// The task will be polled again only after its waker has run.
    Pending,
}

/// What one poll of the scancode stream reports.
#[derive(Clone, Copy, Debug, PartialEq, Eq, Structural)]
pub enum BytePoll {
    Ready(u8),
    Pending,
}

/// The futures the kernel runs, written as explicit state machines.
pub enum TaskFuture {
    /// Yields `remaining` more times, waking itself before each pending
    /// return, then completes.
    Yielding { remaining: u64 },
    /// Completes on its first poll, like a task whose inner future is
    /// already ready when awaited.
    Immediate,
    /// The keyboard consumer: drains the scancode stream into the console
    /// sink, in arrival order, and suspends when the stream runs dry.  It
    /// never completes.
    KeyboardEcho { stream: ScancodeStream },
}

impl TaskFuture {
    /// How many more pending returns a future has before it can complete;
    /// what bounds the number of polls a `Yielding` task gets.
    pub open spec fn potential(self) -> nat {
        match self {
            TaskFuture::Yielding { remaining } => remaining as nat,
            _ => 0,
        }
    }

    /// Polls the future.  `cx` carries the waker bound to the task's
    /// identifier; `bus` is the scancode pipeline and `sink` the console
    /// that the keyboard consumer echoes into.
    pub fn poll(&mut self, cx: &mut PollContext, bus: &mut ScancodeBus, sink: &mut Vec<u8>) -> (r:
        TaskPoll)
        requires
            old(bus)@.wf(),
            (*old(self)) is KeyboardEcho ==> old(bus)@.inited(),
        ensures
            final(bus)@.wf(),
            final(bus)@.cap == old(bus)@.cap,
            final(cx).waker == old(cx).waker,
            (match *old(self) {
                TaskFuture::Immediate => {
                    &&& r == TaskPoll::Ready
                    &&& *final(self) == *old(self)
                    &&& *final(cx) == *old(cx)
                    &&& *final(bus) == *old(bus)
                    &&& *final(sink) == *old(sink)
                },
                TaskFuture::Yielding { remaining } => {
                    if remaining == 0 {
                        &&& r == TaskPoll::Ready
                        &&& *final(self) == *old(self)
                        &&& *final(cx) == *old(cx)
                        &&& *final(bus) == *old(bus)
                        &&& *final(sink) == *old(sink)
                    } else {
                        &&& r == TaskPoll::Pending
                        &&& *final(self) == (TaskFuture::Yielding {
                            remaining: (remaining - 1) as u64,
                        })
                        &&& final(cx).woken
                        &&& *final(bus) == *old(bus)
                        &&& *final(sink) == *old(sink)
                    }
                },
                TaskFuture::KeyboardEcho { .. } => {
                    &&& r == TaskPoll::Pending
                    &&& *final(self) == *old(self)
                    &&& *final(cx) == *old(cx)
                    &&& final(bus)@ == (BusState {
                        queue: Some(Seq::<u8>::empty()),
                        cap: old(bus)@.cap,
                        waker: Some(old(cx).waker.task_id.id),
                    })
                    &&& final(sink)@ == old(sink)@ + old(bus)@.scancodes()
                },
            }),
            final(self).potential() <= old(self).potential(),
    {
        match self {
            TaskFuture::Immediate => TaskPoll::Ready,
            TaskFuture::Yielding { remaining } => {
                if *remaining == 0 {
                    TaskPoll::Ready
                } else {
                    *remaining = *remaining - 1;
                    // Ask to be polled again right away.
                    cx.wake();
                    TaskPoll::Pending
                }
            },
            TaskFuture::KeyboardEcho { stream } => {
                let id = cx.waker.task_id;
                let ghost st0 = *stream;
                let ghost mut polled: int = 0;
                loop
                    invariant_except_break
                        bus@.waker == old(bus)@.waker,
                    invariant
                        *stream == st0,
                        bus@.inited(),
                        bus@.wf(),
                        bus@.cap == old(bus)@.cap,
                        0 <= polled <= old(bus)@.scancodes().len(),
                        sink@ == old(sink)@ + old(bus)@.scancodes().take(polled),
                        bus@.scancodes() == old(bus)@.scancodes().skip(polled),
                        id == old(cx).waker.task_id,
                        *cx == *old(cx),
                    ensures
                        bus@ == (BusState {
                            queue: Some(Seq::<u8>::empty()),
                            cap: old(bus)@.cap,
                            waker: Some(old(cx).waker.task_id.id),
                        }),
                        sink@ == old(sink)@ + old(bus)@.scancodes(),
                    decreases bus@.scancodes().len(),
                {
                    match stream.poll_next(bus, id) {
                        BytePoll::Ready(scancode) => {
                            sink.push(scancode);
                            proof {
                                let ghost all = old(bus)@.scancodes();
                                assert(all.skip(polled).drop_first() =~= all.skip(polled + 1));
                                assert(all.take(polled).push(all[polled]) =~= all.take(polled + 1));
                                polled = polled + 1;
                            }
                        },
                        BytePoll::Pending => {
                            proof {
                                let ghost all = old(bus)@.scancodes();
                                assert(all.skip(polled).len() == 0);
                                assert(all.take(polled) =~= all);
                                assert(bus@ =~= (BusState {
                                    queue: Some(Seq::<u8>::empty()),
                                    cap: old(bus)@.cap,
                                    waker: Some(old(cx).waker.task_id.id),
                                }));
                            }
                            break ;
                        },
                    }
                }
                TaskPoll::Pending
            },
        }
    }
}

/// A task: a future paired with its unique identifier, owned by the
/// executor until it completes.
pub struct Task {
    pub id: TaskId,
    pub future: TaskFuture,
}

impl Task {
    /// Wraps a future into a task under a fresh identifier.
    pub fn new(future: TaskFuture, counter: &mut TaskIdCounter) -> (r: Task)
        requires
            old(counter).next < u64::MAX,
        ensures
            r.id.id == old(counter).next,
            r.future == future,
            final(counter).next == old(counter).next + 1,
    {
        Task { id: TaskId::new(counter), future }
    }

    /// Polls the task's future; same contract as `TaskFuture::poll`.
    pub fn poll(&mut self, cx: &mut PollContext, bus: &mut ScancodeBus, sink: &mut Vec<u8>) -> (r:
        TaskPoll)
        requires
            old(bus)@.wf(),
            old(self).future is KeyboardEcho ==> old(bus)@.inited(),
        ensures
            final(bus)@.wf(),
            final(bus)@.cap == old(bus)@.cap,
            final(cx).waker == old(cx).waker,
            final(self).id == old(self).id,
            (match old(self).future {
                TaskFuture::Immediate => {
                    &&& r == TaskPoll::Ready
                    &&& *final(self) == *old(self)
                    &&& *final(cx) == *old(cx)
                    &&& *final(bus) == *old(bus)
                    &&& *final(sink) == *old(sink)
                },
                TaskFuture::Yielding { remaining } => {
                    if remaining == 0 {
                        &&& r == TaskPoll::Ready
                        &&& *final(self) == *old(self)
                        &&& *final(cx) == *old(cx)
                        &&& *final(bus) == *old(bus)
                        &&& *final(sink) == *old(sink)
                    } else {
                        &&& r == TaskPoll::Pending
                        &&& final(self).future == (TaskFuture::Yielding {
                            remaining: (remaining - 1) as u64,
                        })
                        &&& final(cx).woken
                        &&& *final(bus) == *old(bus)
                        &&& *final(sink) == *old(sink)
                    }
                },
                TaskFuture::KeyboardEcho { .. } => {
                    &&& r == TaskPoll::Pending
                    &&& *final(self) == *old(self)
                    &&& *final(cx) == *old(cx)
                    &&& final(bus)@ == (BusState {
                        queue: Some(Seq::<u8>::empty()),
                        cap: old(bus)@.cap,
                        waker: Some(old(cx).waker.task_id.id),
                    })
                    &&& final(sink)@ == old(sink)@ + old(bus)@.scancodes()
                },
            }),
            final(self).future.potential() <= old(self).future.potential(),
    {
        self.future.poll(cx, bus, sink)
    }
}

} // verus!
