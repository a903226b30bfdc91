//! Bump allocator: allocation advances a single pointer, deallocation
//! reclaims memory only when the newest block is freed (LIFO reuse) or when
//! the last live allocation goes away (full reset).

use crate::allocator::{
    block_in_range, blocks_disjoint, lemma_align_up, lemma_block_count, lemma_pow2_pos,
    set_pairwise_disjoint, spec_align_up,
};
use vstd::arithmetic::power2::is_pow2;
use vstd::prelude::*;

verus! {

/// Mathematical state of the bump allocator: the heap bounds, the bump
/// pointer `next`, the live-allocation count, and the set of live blocks
/// as (address, size) pairs.
#[verifier::ext_equal]
pub ghost struct BumpState {
    pub heap_start: int,
    pub heap_end: int,
    pub next: int,
    pub allocations: int,
    pub live: Set<(int, int)>,
}

impl BumpState {
    /// Well-formed: the bump pointer stays inside the heap and every live
    /// block is non-empty, lies in `[heap_start, next)`, and overlaps no
    /// other live block.
    pub open spec fn wf(self) -> bool {
        &&& 0 <= self.heap_start <= self.next <= self.heap_end <= u64::MAX as int
        &&& self.live.finite()
        &&& self.allocations == self.live.len()
        &&& forall|b: (int, int)|
            self.live.contains(b) ==> #[trigger] block_in_range(b, self.heap_start, self.next)
                && b.1 >= 1
        &&& set_pairwise_disjoint(self.live)
    }

    /// The request `(size, align)` fits below `heap_end`.
    pub open spec fn can_alloc(self, size: int, align: int) -> bool {
        spec_align_up(self.next, align) + size <= self.heap_end
    }

    /// The address a successful allocation returns.
    pub open spec fn alloc_address(self, align: int) -> int {
        spec_align_up(self.next, align)
    }

    /// State after a successful allocation of `(size, align)`.
    pub open spec fn after_alloc(self, size: int, align: int) -> BumpState {
        let a = self.alloc_address(align);
        BumpState {
            next: a + size,
            allocations: self.allocations + 1,
            live: self.live.insert((a, size)),
            ..self
        }
    }

    /// State after freeing the live block `(addr, size)`: the bump pointer
    /// rewinds when the newest block is freed, and resets to `heap_start`
    /// when nothing is live any more.
    pub open spec fn after_dealloc(self, addr: int, size: int) -> BumpState {
        let live = self.live.remove((addr, size));
        let allocations = self.allocations - 1;
        let next = if addr + size == self.next {
            addr
        } else if allocations == 0 {
            self.heap_start
        } else {
            self.next
        };
        BumpState { next, allocations, live, ..self }
    }
}

/// Bump allocator over a fixed byte range.
pub struct BumpAllocator {
    pub heap_start: u64,
    pub heap_end: u64,
    pub next: u64,
    pub allocations: u64,
    /// The live allocations; carried only for the specification.
    pub live: Ghost<Set<(int, int)>>,
}

impl View for BumpAllocator {
    type V = BumpState;

    open spec fn view(&self) -> BumpState {
        BumpState {
            heap_start: self.heap_start as int,
            heap_end: self.heap_end as int,
            next: self.next as int,
            allocations: self.allocations as int,
            live: self.live@,
        }
    }
}

impl BumpAllocator {
    /// Creates an empty bump allocator; `init` gives it its heap range.
    pub fn new() -> (r: BumpAllocator)
        ensures
            r@ == (BumpState {
                heap_start: 0,
                heap_end: 0,
                next: 0,
                allocations: 0,
                live: Set::<(int, int)>::empty(),
            }),
            r@.wf(),
    {
        BumpAllocator {
            heap_start: 0,
            heap_end: 0,
            next: 0,
            allocations: 0,
            live: Ghost(Set::empty()),
        }
    }

    /// Hands the allocator its heap range. To be called exactly once, on a
    /// fresh allocator, after the range has been mapped.
    pub fn init(&mut self, heap_start: u64, heap_size: u64)
        requires
            old(self)@.allocations == 0,
            old(self)@.live == Set::<(int, int)>::empty(),
            heap_start + heap_size <= u64::MAX as int,
        ensures
            final(self)@ == (BumpState {
                heap_start: heap_start as int,
                heap_end: heap_start + heap_size,
                next: heap_start as int,
                allocations: 0,
                live: Set::<(int, int)>::empty(),
            }),
            final(self)@.wf(),
    {
        self.heap_start = heap_start;
        self.heap_end = heap_start + heap_size;
        self.next = heap_start;
    }

    /// Allocates `size` bytes aligned to `align`: bumps the pointer past an
    /// aligned block and returns its address, or `None` when the request
    /// does not fit (exhaustion or arithmetic overflow).
    pub fn allocate(&mut self, size: u64, align: u64) -> (r: Option<u64>)
        requires
            old(self)@.wf(),
            is_pow2(align as int),
            size >= 1,
        ensures
            final(self)@.wf(),
            r is Some <==> old(self)@.can_alloc(size as int, align as int),
            (match r {
                Some(a) => {
                    &&& a == old(self)@.alloc_address(align as int)
                    &&& a as int % align as int == 0
                    &&& old(self)@.heap_start <= a
                    &&& a + size <= old(self)@.heap_end
                    &&& forall|b: (int, int)|
                        old(self)@.live.contains(b) ==> #[trigger] blocks_disjoint(
                            b,
                            (a as int, size as int),
                        )
                    &&& final(self)@ == old(self)@.after_alloc(size as int, align as int)
                },
                None => *final(self) == *old(self),
            }),
    {
        proof {
            lemma_pow2_pos(align as int);
            lemma_align_up(self.next as int, align as int);
        }
        let rem = self.next % align;
        let pad = if rem == 0 { 0 } else { align - rem };
        if pad > u64::MAX - self.next {
            // The aligned start is not representable, so it is certainly
            // beyond the end of the heap.
            return None;
        }
        let start = self.next + pad;
        if start > self.heap_end || size > self.heap_end - start {
            return None;
        }
        let end = start + size;
        proof {
            let ghost s = self@;
            let ghost nb = (start as int, size as int);
            // Every live block ends at or before the old bump pointer, and
            // the new block begins at or after it.
            assert forall|b: (int, int)| s.live.contains(b) implies #[trigger] blocks_disjoint(
                b,
                nb,
            ) by {
                assert(block_in_range(b, s.heap_start, s.next));
            }
            if s.live.contains(nb) {
                assert(block_in_range(nb, s.heap_start, s.next));
            }
            assert(!s.live.contains(nb));
            // The count of disjoint, non-empty live blocks cannot reach the
            // width of the heap prefix that holds them.
            lemma_block_count(s.live, s.heap_start, s.next);
        }
        self.next = end;
        self.allocations = self.allocations + 1;
        self.live = Ghost(self.live@.insert((start as int, size as int)));
        proof {
            let ghost s = old(self)@;
            let ghost t = self@;
            let ghost nb = (start as int, size as int);
            assert forall|b: (int, int)| t.live.contains(b) implies #[trigger] block_in_range(
                b,
                t.heap_start,
                t.next,
            ) && b.1 >= 1 by {
                if b != nb {
                    assert(s.live.contains(b));
                    assert(block_in_range(b, s.heap_start, s.next));
                }
            }
            assert(set_pairwise_disjoint(t.live)) by {
                assert forall|x: (int, int), y: (int, int)|
                    t.live.contains(x) && t.live.contains(y) && x != y implies #[trigger]
                blocks_disjoint(x, y) by {
                    if x != nb && y != nb {
                        assert(s.live.contains(x) && s.live.contains(y));
                    } else if x == nb {
                        assert(s.live.contains(y));
                        assert(blocks_disjoint(y, nb));
                    } else {
                        assert(s.live.contains(x));
                        assert(blocks_disjoint(x, nb));
                    }
                }
            }
        }
        Some(start)
    }

    /// Frees the live block `(addr, size)`, which must have come from
    /// `allocate` on this allocator.
    pub fn deallocate(&mut self, addr: u64, size: u64)
        requires
            old(self)@.wf(),
            old(self)@.live.contains((addr as int, size as int)),
        ensures
            final(self)@.wf(),
            final(self)@ == old(self)@.after_dealloc(addr as int, size as int),
    {
        proof {
            let ghost s = self@;
            let ghost fb = (addr as int, size as int);
            assert(s.live.remove(fb).insert(fb) =~= s.live);
            assert(s.live.len() >= 1);
            assert(block_in_range(fb, s.heap_start, s.next));
        }
        self.allocations = self.allocations - 1;
        if addr + size == self.next {
            self.next = addr;
        } else if self.allocations == 0 {
            self.next = self.heap_start;
        }
        self.live = Ghost(self.live@.remove((addr as int, size as int)));
        proof {
            let ghost s = old(self)@;
            let ghost t = self@;
            let ghost fb = (addr as int, size as int);
            if addr + size == s.next {
                // Remaining blocks are disjoint from the freed block, which
                // reached up to the old bump pointer, so they all end at or
                // before its start.
                assert forall|b: (int, int)| t.live.contains(b) implies #[trigger] block_in_range(
                    b,
                    t.heap_start,
                    t.next,
                ) && b.1 >= 1 by {
                    assert(s.live.contains(b));
                    assert(block_in_range(b, s.heap_start, s.next));
                    if b != fb {
                        assert(blocks_disjoint(b, fb));
                    }
                }
            } else if t.allocations == 0 {
                assert(t.live.len() == 0);
                t.live.lemma_len0_is_empty();
                assert(t.live =~= Set::<(int, int)>::empty());
            }
        }
    }
}

/// No overlap: any two distinct live allocations of a well-formed bump
/// allocator occupy disjoint byte ranges.
pub proof fn lemma_bump_live_disjoint(s: BumpState, a: (int, int), b: (int, int))
    requires
        s.wf(),
        s.live.contains(a),
        s.live.contains(b),
        a != b,
    ensures
        blocks_disjoint(a, b),
{
}

/// Bounds: every live allocation of a well-formed bump allocator lies
/// entirely inside the heap range.
pub proof fn lemma_bump_live_in_heap(s: BumpState, b: (int, int))
    requires
        s.wf(),
        s.live.contains(b),
    ensures
        s.heap_start <= b.0,
        b.0 + b.1 <= s.heap_end,
{
    assert(block_in_range(b, s.heap_start, s.next));
}

/// Bump reclamation: allocating and immediately freeing the newest block
/// rewinds the bump pointer to the block's start, after which the same
/// request fits again at the same address, and one further such cycle (and
/// hence any number of them) leaves the state unchanged.
pub proof fn lemma_bump_lifo_reuse(s: BumpState, size: int, align: int)
    requires
        s.wf(),
        is_pow2(align),
        size >= 1,
        s.can_alloc(size, align),
    ensures
        ({
            let a = s.alloc_address(align);
            let s1 = s.after_alloc(size, align).after_dealloc(a, size);
            &&& s1.wf()
            &&& s1.next == a
            &&& s1.can_alloc(size, align)
            &&& s1.alloc_address(align) == a
            &&& s1.after_alloc(size, align).after_dealloc(a, size) == s1
        }),
{
    lemma_pow2_pos(align);
    lemma_align_up(s.next, align);
    let a = s.alloc_address(align);
    let s0 = s.after_alloc(size, align);
    let s1 = s0.after_dealloc(a, size);
    assert forall|b: (int, int)| s.live.contains(b) implies !(b == (a, size)) by {
        assert(block_in_range(b, s.heap_start, s.next));
    }
    assert(s1.live =~= s.live);
    assert(s1.wf()) by {
        assert forall|b: (int, int)| s1.live.contains(b) implies #[trigger] block_in_range(
            b,
            s1.heap_start,
            s1.next,
        ) && b.1 >= 1 by {
            assert(block_in_range(b, s.heap_start, s.next));
        }
    }
    lemma_align_up(a, align);
    assert(s1.alloc_address(align) == a);
    let s2 = s1.after_alloc(size, align).after_dealloc(a, size);
    assert(s2.live =~= s1.live);
    assert(s2 =~= s1);
}

} // verus!
