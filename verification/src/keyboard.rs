//! The scancode pipeline between interrupt context and the consumer task:
//! a bounded queue that the keyboard interrupt handler fills without ever
//! blocking or allocating, a single-slot waker cell, and the consumer's
//! stream whose poll procedure registers its waker and then checks the
//! queue once more, so that no wakeup is lost between a producer push and a
//! consumer suspension.

use crate::queue::{byte_queue_bound, byte_queue_new, byte_queue_pop, byte_queue_push,
    byte_queue_view, id_queue_bound, id_queue_push, id_queue_view};
use crate::task::{BytePoll, TaskId};
use crossbeam_queue::ArrayQueue;
use vstd::prelude::*;

verus! {

/// Capacity of the scancode queue.
pub const SCANCODE_QUEUE_CAPACITY: usize = 100;

/// Mathematical state of the scancode pipeline: the queue's contents (or
/// `None` before initialization), its capacity, and the registered
/// consumer waker as a task identifier.
#[verifier::ext_equal]
pub ghost struct BusState {
    pub queue: Option<Seq<u8>>,
    pub cap: nat,
    pub waker: Option<u64>,
}

impl BusState {
    /// The one-shot queue has been created.
    pub open spec fn inited(self) -> bool {
        self.queue is Some
    }

    /// The queued scancodes, oldest first.
    pub open spec fn scancodes(self) -> Seq<u8> {
        self.queue.unwrap()
    }

    /// Well-formed: once initialized, the queue never overfills.
    pub open spec fn wf(self) -> bool {
        self.inited() ==> self.scancodes().len() <= self.cap
    }
}

/// What one consumer poll does to the pipeline: a queued scancode is taken
/// and returned at once; otherwise the consumer's waker is registered and
/// the poll reports pending.
pub open spec fn poll_step(s: BusState, id: u64) -> (BusState, Option<u8>) {
    if s.scancodes().len() > 0 {
        (BusState { queue: Some(s.scancodes().drop_first()), ..s }, Some(s.scancodes()[0]))
    } else {
        (BusState { waker: Some(id), ..s }, None)
    }
}

/// What one delivered scancode does to the pipeline: the scancode joins the
/// queue and the registered waker, if any, is taken to be invoked (its task
/// identifier is returned for the run queue).
pub open spec fn add_step(s: BusState, scancode: u8) -> (BusState, Option<u64>) {
    (BusState { queue: Some(s.scancodes().push(scancode)), waker: None, ..s }, s.waker)
}

/// What became of a scancode handed to `add_scancode`.
#[derive(Clone, Copy, Debug, PartialEq, Eq, Structural)]
pub enum ScancodeDelivery {
    /// Queued, and any registered waker was invoked.
    Delivered,
    /// Dropped: the queue was full.  Input loss is preferred over blocking
    /// in interrupt context.
    QueueFull,
    /// Dropped: the queue has not been created yet.
    Uninitialized,
}

/// The scancode queue and the consumer waker cell.  In the kernel both are
/// process-wide one-shot globals; here they are one value that the
/// interrupt entry point and the consumer share.
pub struct ScancodeBus {
    pub queue: Option<ArrayQueue<u8>>,
    pub waker: Option<TaskId>,
}

impl View for ScancodeBus {
    type V = BusState;

    open spec fn view(&self) -> BusState {
        BusState {
            queue: (match self.queue {
                Some(q) => Some(byte_queue_view(q)),
                None => None,
            }),
            cap: (match self.queue {
                Some(q) => byte_queue_bound(q),
                None => 0,
            }),
            waker: (match self.waker {
                Some(t) => Some(t.id),
                None => None,
            }),
        }
    }
}

impl ScancodeBus {
    /// The pipeline before initialization: no queue, no waker.
    pub fn new() -> (r: ScancodeBus)
        ensures
            r@ == (BusState { queue: None::<Seq<u8>>, cap: 0, waker: None::<u64> }),
            r@.wf(),
    {
        ScancodeBus { queue: None, waker: None }
    }
}

/// Entry point for the keyboard interrupt handler: queues one scancode and
/// wakes the registered consumer, never blocking and never allocating.  A
/// scancode that arrives before initialization or against a full queue is
/// dropped, and the result says so, so the caller can log the loss.  The
/// run queue must have room whenever a waker is registered: a failed wake
/// push is a fatal misconfiguration.
pub fn add_scancode(bus: &mut ScancodeBus, task_queue: &mut ArrayQueue<u64>, scancode: u8) -> (r:
    ScancodeDelivery)
    requires
        old(bus)@.wf(),
        old(bus)@.waker is Some ==> id_queue_view(*old(task_queue)).len() < id_queue_bound(
            *old(task_queue),
        ),
    ensures
        final(bus)@.wf(),
        final(bus)@.cap == old(bus)@.cap,
        id_queue_bound(*final(task_queue)) == id_queue_bound(*old(task_queue)),
        (if !old(bus)@.inited() {
            &&& r == ScancodeDelivery::Uninitialized
            &&& *final(bus) == *old(bus)
            &&& *final(task_queue) == *old(task_queue)
        } else if old(bus)@.scancodes().len() == old(bus)@.cap {
            &&& r == ScancodeDelivery::QueueFull
            &&& final(bus)@ == old(bus)@
            &&& *final(task_queue) == *old(task_queue)
        } else {
            &&& r == ScancodeDelivery::Delivered
            &&& final(bus)@ == add_step(old(bus)@, scancode).0
            &&& id_queue_view(*final(task_queue)) == (match add_step(old(bus)@, scancode).1 {
                Some(id) => id_queue_view(*old(task_queue)).push(id),
                None => id_queue_view(*old(task_queue)),
            })
        }),
{
    match &mut bus.queue {
        Some(queue) => {
            match byte_queue_push(queue, scancode) {
                Ok(_) => {
                    // Push succeeded: take and invoke the registered waker.
                    match &bus.waker {
                        Some(waker) => {
                            let id = waker.id;
                            bus.waker = None;
                            let _pushed = id_queue_push(task_queue, id);
                            ScancodeDelivery::Delivered
                        },
                        None => ScancodeDelivery::Delivered,
                    }
                },
                Err(_) => ScancodeDelivery::QueueFull,
            }
        },
        None => ScancodeDelivery::Uninitialized,
    }
}

/// The consumer's end of the scancode pipeline.  Creating it creates the
/// one-shot queue; creating a second stream is a fatal bug, which the
/// precondition rules out.
pub struct ScancodeStream {
    pub _sealed: (),
}

impl ScancodeStream {
    /// Creates the scancode queue and the stream that reads it.
    pub fn new(bus: &mut ScancodeBus) -> (r: ScancodeStream)
        requires
            !old(bus)@.inited(),
        ensures
            final(bus)@ == (BusState {
                queue: Some(Seq::<u8>::empty()),
                cap: SCANCODE_QUEUE_CAPACITY as nat,
                waker: old(bus)@.waker,
            }),
            final(bus)@.wf(),
    {
        bus.queue = Some(byte_queue_new(SCANCODE_QUEUE_CAPACITY));
        ScancodeStream { _sealed: () }
    }

    /// One consumer poll, `id` naming the consumer task.  A queued scancode
    /// is returned at once.  Otherwise the waker is registered first and
    /// the queue is checked once more before reporting pending: a producer
    /// that pushed in between would have found either the scancode here or
    /// the waker to invoke, so no wakeup is lost.
    pub fn poll_next(&self, bus: &mut ScancodeBus, id: TaskId) -> (r: BytePoll)
        requires
            old(bus)@.inited(),
            old(bus)@.wf(),
        ensures
            final(bus)@.inited(),
            final(bus)@.wf(),
            final(bus)@.cap == old(bus)@.cap,
            final(bus)@ == poll_step(old(bus)@, id.id).0,
            r == (match poll_step(old(bus)@, id.id).1 {
                Some(b) => BytePoll::Ready(b),
                None => BytePoll::Pending,
            }),
    {
        let queue = match &mut bus.queue {
            Some(q) => q,
            None => {
                // Unreachable: the stream exists only after initialization.
                return BytePoll::Pending;
            },
        };
        match byte_queue_pop(queue) {
            Some(scancode) => {
                return BytePoll::Ready(scancode);
            },
            None => {},
        }
        bus.waker = Some(id);
        let again = match &mut bus.queue {
            Some(q) => byte_queue_pop(q),
            None => None,
        };
        match again {
            Some(scancode) => {
                // A producer pushed between the first check and the waker
                // registration; the wakeup is consumed here instead.
                bus.waker = None;
                BytePoll::Ready(scancode)
            },
            None => BytePoll::Pending,
        }
    }
}

/// Wake delivery: once the consumer's poll has returned pending (leaving
/// its waker registered and the queue empty), a scancode delivered from
/// interrupt context wakes exactly that consumer, and the consumer's next
/// poll returns exactly that scancode.
pub proof fn lemma_wake_delivery(s: BusState, id: u64, scancode: u8)
    requires
        s.inited(),
        s.wf(),
        s.cap > 0,
        s.scancodes().len() == 0,
    ensures
        ({
            let (s1, r1) = poll_step(s, id);
            let (s2, woken) = add_step(s1, scancode);
            let (s3, r2) = poll_step(s2, id);
            &&& r1 is None
            &&& woken == Some(id)
            &&& r2 == Some(scancode)
            &&& s3.scancodes() =~= Seq::<u8>::empty()
        }),
{
    let (s1, r1) = poll_step(s, id);
    let (s2, woken) = add_step(s1, scancode);
    assert(s2.scancodes() =~= seq![scancode]);
}

} // verus!
