//! The bounded FIFO queues of the kernel: the scancode queue that an
//! interrupt handler fills, and the executor's run queue of task
//! identifiers.  Both are `crossbeam_queue::ArrayQueue`, a bounded queue
//! whose push fails (returning the value) when the queue is full and whose
//! pop returns the oldest element.  The queue type is opaque here; what a
//! queue holds, and the capacity it was created with, are given names that
//! the trusted wrappers below relate to the calls.

use crossbeam_queue::ArrayQueue;
use vstd::prelude::*;

verus! {

#[verifier::external_type_specification]
#[verifier::external_body]
#[verifier::reject_recursive_types(T)]
pub struct ExArrayQueue<T>(ArrayQueue<T>);

/// The scancodes a byte queue holds, oldest first.
pub uninterp spec fn byte_queue_view(q: ArrayQueue<u8>) -> Seq<u8>;

/// The capacity a byte queue was created with.
pub uninterp spec fn byte_queue_bound(q: ArrayQueue<u8>) -> nat;

/// The task identifiers an identifier queue holds, oldest first.
pub uninterp spec fn id_queue_view(q: ArrayQueue<u64>) -> Seq<u64>;

/// The capacity an identifier queue was created with.
pub uninterp spec fn id_queue_bound(q: ArrayQueue<u64>) -> nat;

/// Relies on `ArrayQueue::new`: creates an empty queue of the given
/// capacity (it panics on capacity zero, and when
/// `capacity + 1` rounded to a power of two overflows, far above the bound
/// required here).
#[verifier::external_body]
pub fn byte_queue_new(cap: usize) -> (q: ArrayQueue<u8>)
    requires
        1 <= cap <= 0x1000_0000,
    ensures
        byte_queue_view(q) == Seq::<u8>::empty(),
        byte_queue_bound(q) == cap as nat,
{
    ArrayQueue::new(cap)
}

/// Relies on `ArrayQueue::push`: appends at the tail, or hands the value
/// back when the queue is full.
#[verifier::external_body]
pub fn byte_queue_push(q: &mut ArrayQueue<u8>, value: u8) -> (r: Result<(), u8>)
    ensures
        byte_queue_bound(*final(q)) == byte_queue_bound(*old(q)),
        (if byte_queue_view(*old(q)).len() < byte_queue_bound(*old(q)) {
            r == Ok::<(), u8>(()) && byte_queue_view(*final(q)) == byte_queue_view(
                *old(q),
            ).push(value)
        } else {
            r == Err::<(), u8>(value) && byte_queue_view(*final(q)) == byte_queue_view(*old(q))
        }),
{
    q.push(value)
}

/// Relies on `ArrayQueue::pop`: removes and returns the oldest element, or
/// `None` when the queue is empty.
#[verifier::external_body]
pub fn byte_queue_pop(q: &mut ArrayQueue<u8>) -> (r: Option<u8>)
    ensures
        byte_queue_bound(*final(q)) == byte_queue_bound(*old(q)),
        (if byte_queue_view(*old(q)).len() > 0 {
            r == Some(byte_queue_view(*old(q))[0]) && byte_queue_view(*final(q)) == byte_queue_view(
                *old(q),
            ).drop_first()
        } else {
            r is None && byte_queue_view(*final(q)) == byte_queue_view(*old(q))
        }),
{
    q.pop()
}

/// Relies on `ArrayQueue::new`, as `byte_queue_new` does.
#[verifier::external_body]
pub fn id_queue_new(cap: usize) -> (q: ArrayQueue<u64>)
    requires
        1 <= cap <= 0x1000_0000,
    ensures
        id_queue_view(q) == Seq::<u64>::empty(),
        id_queue_bound(q) == cap as nat,
{
    ArrayQueue::new(cap)
}

/// Relies on `ArrayQueue::push`, as `byte_queue_push` does.
#[verifier::external_body]
pub fn id_queue_push(q: &mut ArrayQueue<u64>, value: u64) -> (r: Result<(), u64>)
    ensures
        id_queue_bound(*final(q)) == id_queue_bound(*old(q)),
        (if id_queue_view(*old(q)).len() < id_queue_bound(*old(q)) {
            r == Ok::<(), u64>(()) && id_queue_view(*final(q)) == id_queue_view(
                *old(q),
            ).push(value)
        } else {
            r == Err::<(), u64>(value) && id_queue_view(*final(q)) == id_queue_view(*old(q))
        }),
{
    q.push(value)
}

/// Relies on `ArrayQueue::pop`, as `byte_queue_pop` does.
#[verifier::external_body]
pub fn id_queue_pop(q: &mut ArrayQueue<u64>) -> (r: Option<u64>)
    ensures
        id_queue_bound(*final(q)) == id_queue_bound(*old(q)),
        (if id_queue_view(*old(q)).len() > 0 {
            r == Some(id_queue_view(*old(q))[0]) && id_queue_view(*final(q)) == id_queue_view(
                *old(q),
            ).drop_first()
        } else {
            r is None && id_queue_view(*final(q)) == id_queue_view(*old(q))
        }),
{
    q.pop()
}

/// Relies on `ArrayQueue::is_empty`: whether the queue holds nothing.
#[verifier::external_body]
pub fn id_queue_is_empty(q: &ArrayQueue<u64>) -> (r: bool)
    ensures
        r == (id_queue_view(*q).len() == 0),
{
    q.is_empty()
}

/// Relies on `ArrayQueue::len`: how many elements the queue holds.
#[verifier::external_body]
pub fn id_queue_len(q: &ArrayQueue<u64>) -> (r: usize)
    ensures
        r == id_queue_view(*q).len(),
{
    q.len()
}

} // verus!
