//! Free-list allocator: free regions form a list ordered from the most
//! recently freed region to the oldest, allocation does a first-fit scan,
//! and freed blocks go back to the head of the list.  In the kernel each
//! region stores its own header (size and next pointer) in place, which is
//! why every region must be able to hold that header; here a region is the
//! pair of its address and size, and the header's size and alignment remain
//! as constants that every region and every adjusted request respect.
//! There is no coalescing of neighbouring regions.

use crate::allocator::{
    block_in_range, blocks_disjoint, lemma_align_up, lemma_divides_trans, lemma_pow2_divides,
    lemma_pow2_pos, set_pairwise_disjoint, spec_align_up,
};
use vstd::arithmetic::div_mod::lemma_add_mod_noop;
use vstd::arithmetic::power2::is_pow2;
use vstd::prelude::*;

verus! {

/// Size in bytes of the in-place header of a free region (its size and the
/// next pointer, on a 64-bit machine).
pub const NODE_SIZE: u64 = 16;

/// Alignment in bytes of the in-place header of a free region.
pub const NODE_ALIGN: u64 = 8;

/// The alignment actually used for a request: at least the header's.
pub open spec fn adjusted_align(align: int) -> int {
    if align >= NODE_ALIGN as int {
        align
    } else {
        NODE_ALIGN as int
    }
}

/// The size actually used for a request: padded to the adjusted alignment
/// and at least the header's size, so the block can later hold a header.
pub open spec fn adjusted_size(size: int, align: int) -> int {
    let padded = spec_align_up(size, adjusted_align(align));
    if padded >= NODE_SIZE as int {
        padded
    } else {
        NODE_SIZE as int
    }
}

/// Whether the free region `r` admits an allocation of `size` bytes at
/// alignment `align` (both already adjusted): the aligned start plus the
/// size stays inside the region, and the tail left over is either empty or
/// still large enough to hold a header.
pub open spec fn region_fits(r: (int, int), size: int, align: int) -> bool {
    let a = spec_align_up(r.0, align);
    let rem = r.0 + r.1 - (a + size);
    &&& a + size <= r.0 + r.1
    &&& (rem == 0 || rem >= NODE_SIZE as int)
}

/// First-fit scan of `regions` starting at index `k`: the index of the
/// first region from `k` on that admits the request, and the aligned
/// address inside it.
pub open spec fn first_fit_from(regions: Seq<(int, int)>, size: int, align: int, k: int) -> Option<
    (int, int),
>
    decreases regions.len() - k,
{
    if k < 0 || k >= regions.len() {
        None
    } else if region_fits(regions[k], size, align) {
        Some((k, spec_align_up(regions[k].0, align)))
    } else {
        first_fit_from(regions, size, align, k + 1)
    }
}

/// First-fit over the whole list.
pub open spec fn first_fit(regions: Seq<(int, int)>, size: int, align: int) -> Option<(int, int)> {
    first_fit_from(regions, size, align, 0)
}

/// If no region admits the request, the scan finds nothing.
pub proof fn lemma_first_fit_none(regions: Seq<(int, int)>, size: int, align: int, k: int)
    requires
        forall|i: int| 0 <= i < regions.len() ==> !region_fits(#[trigger] regions[i], size, align),
    ensures
        first_fit_from(regions, size, align, k) is None,
    decreases regions.len() - k,
{
    if 0 <= k < regions.len() {
        lemma_first_fit_none(regions, size, align, k + 1);
    }
}

/// What a successful scan returns: an in-range index, the first admissible
/// region from `k` on, and the aligned address inside it.
pub proof fn lemma_first_fit_some(regions: Seq<(int, int)>, size: int, align: int, k: int)
    requires
        first_fit_from(regions, size, align, k) is Some,
    ensures
        ({
            let (i, a) = first_fit_from(regions, size, align, k).unwrap();
            &&& 0 <= k <= i < regions.len()
            &&& region_fits(regions[i], size, align)
            &&& a == spec_align_up(regions[i].0, align)
            &&& forall|j: int| k <= j < i ==> !region_fits(#[trigger] regions[j], size, align)
        }),
    decreases regions.len() - k,
{
    if !region_fits(regions[k], size, align) {
        lemma_first_fit_some(regions, size, align, k + 1);
    }
}

/// Assembles well-formedness from its clauses; stating them one by one
/// keeps the proof contexts of the allocator's methods small.
proof fn lemma_wf_parts(s: FreeListState)
    requires
        0 <= s.heap_start <= s.heap_end <= u64::MAX as int,
        forall|i: int|
            0 <= i < s.regions.len() ==> {
                let r = #[trigger] s.regions[i];
                block_in_range(r, s.heap_start, s.heap_end) && r.0 % NODE_ALIGN as int == 0 && r.1
                    >= NODE_SIZE as int
            },
        forall|i: int, j: int|
            0 <= i < s.regions.len() && 0 <= j < s.regions.len() && i != j ==> blocks_disjoint(
                #[trigger] s.regions[i],
                #[trigger] s.regions[j],
            ),
        s.live.finite(),
        forall|b: (int, int)|
            s.live.contains(b) ==> #[trigger] block_in_range(b, s.heap_start, s.heap_end) && b.0
                % NODE_ALIGN as int == 0 && b.1 >= NODE_SIZE as int,
        set_pairwise_disjoint(s.live),
        forall|b: (int, int), i: int|
            #![trigger s.live.contains(b), s.regions[i]]
            s.live.contains(b) && 0 <= i < s.regions.len() ==> blocks_disjoint(b, s.regions[i]),
    ensures
        s.wf(),
{
}

/// Mathematical state of the free-list allocator: the heap bounds, the free
/// regions in list order (head first), and the live blocks with their
/// adjusted sizes.
#[verifier::ext_equal]
pub ghost struct FreeListState {
    pub heap_start: int,
    pub heap_end: int,
    pub regions: Seq<(int, int)>,
    pub live: Set<(int, int)>,
}

impl FreeListState {
    /// Well-formed: every free region and every live block is inside the
    /// heap, aligned and large enough for a header, and no two of them all
    /// overlap.
    pub open spec fn wf(self) -> bool {
        &&& 0 <= self.heap_start <= self.heap_end <= u64::MAX as int
        &&& forall|i: int|
            0 <= i < self.regions.len() ==> {
                let r = #[trigger] self.regions[i];
                block_in_range(r, self.heap_start, self.heap_end) && r.0 % NODE_ALIGN as int == 0
                    && r.1 >= NODE_SIZE as int
            }
        &&& forall|i: int, j: int|
            0 <= i < self.regions.len() && 0 <= j < self.regions.len() && i != j
                ==> blocks_disjoint(#[trigger] self.regions[i], #[trigger] self.regions[j])
        &&& self.live.finite()
        &&& forall|b: (int, int)|
            self.live.contains(b) ==> #[trigger] block_in_range(b, self.heap_start, self.heap_end)
                && b.0 % NODE_ALIGN as int == 0 && b.1 >= NODE_SIZE as int
        &&& set_pairwise_disjoint(self.live)
        &&& forall|b: (int, int), i: int|
            #![trigger self.live.contains(b), self.regions[i]]
            self.live.contains(b) && 0 <= i < self.regions.len() ==> blocks_disjoint(
                b,
                self.regions[i],
            )
    }

    /// Whether an allocation of `(size, align)` can succeed.
    pub open spec fn can_alloc(self, size: int, align: int) -> bool {
        first_fit(self.regions, adjusted_size(size, align), adjusted_align(align)) is Some
    }

    /// The address a successful allocation returns.
    pub open spec fn alloc_address(self, size: int, align: int) -> int {
        first_fit(self.regions, adjusted_size(size, align), adjusted_align(align)).unwrap().1
    }

    /// State after a successful allocation: the chosen region leaves the
    /// list, a non-empty tail is re-added at the head, and the block (with
    /// its adjusted size) becomes live.  Any gap between the region's start
    /// and the aligned block start is abandoned until the block is freed.
    pub open spec fn after_alloc(self, size: int, align: int) -> FreeListState {
        let sz = adjusted_size(size, align);
        let (i, a) = first_fit(self.regions, sz, adjusted_align(align)).unwrap();
        let r = self.regions[i];
        let end = a + sz;
        let rem = r.0 + r.1 - end;
        FreeListState {
            regions: if rem > 0 {
                self.regions.remove(i).insert(0, (end, rem))
            } else {
                self.regions.remove(i)
            },
            live: self.live.insert((a, sz)),
            ..self
        }
    }

    /// State after freeing the block at `addr` allocated with `(size,
    /// align)`: the block (with its adjusted size) returns to the head of
    /// the free list.
    pub open spec fn after_dealloc(self, addr: int, size: int, align: int) -> FreeListState {
        let sz = adjusted_size(size, align);
        FreeListState {
            regions: self.regions.insert(0, (addr, sz)),
            live: self.live.remove((addr, sz)),
            ..self
        }
    }
}

/// A free region as the scan sees it: in the kernel this is the in-place
/// header at the region's start; here the address is carried explicitly.
pub struct ListNode {
    pub addr: u64,
    pub size: u64,
}

impl View for ListNode {
    type V = (int, int);

    open spec fn view(&self) -> (int, int) {
        (self.addr as int, self.size as int)
    }
}

impl ListNode {
    /// A region of `size` bytes at `addr`.
    pub fn new(addr: u64, size: u64) -> (r: ListNode)
        ensures
            r@ == (addr as int, size as int),
    {
        ListNode { addr, size }
    }

    /// First byte of the region.
    pub fn start_addr(&self) -> (r: u64)
        ensures
            r == self.addr,
    {
        self.addr
    }

    /// First byte past the region.
    pub fn end_addr(&self) -> (r: u64)
        requires
            self.addr + self.size <= u64::MAX as int,
        ensures
            r == self.addr + self.size,
    {
        self.addr + self.size
    }

    /// Whether this region can hold an allocation of `size` bytes at
    /// `align`: returns the aligned start address if so.
    pub fn can_hold(&self, size: u64, align: u64) -> (r: Option<u64>)
        requires
            is_pow2(align as int),
            self.addr + self.size <= u64::MAX as int,
        ensures
            r is Some <==> region_fits(self@, size as int, align as int),
            (r matches Some(a) ==> a == spec_align_up(self.addr as int, align as int)),
    {
        proof {
            lemma_pow2_pos(align as int);
            lemma_align_up(self.addr as int, align as int);
        }
        let rem = self.addr % align;
        let pad = if rem == 0 { 0 } else { align - rem };
        if pad > u64::MAX - self.addr {
            // The aligned start is past the end of the address space, so
            // certainly past the end of the region.
            return None;
        }
        let alloc_start = self.addr + pad;
        if size > u64::MAX - alloc_start {
            return None;
        }
        let alloc_end = alloc_start + size;
        if alloc_end > self.end_addr() {
            return None;
        }
        // A tail too small to hold a header would become unusable; refuse
        // the region rather than leave such a sliver behind.
        let remaining = self.end_addr() - alloc_end;
        if remaining > 0 && remaining < NODE_SIZE {
            return None;
        }
        Some(alloc_start)
    }

    /// Adjusts a request so the resulting block can later store a header:
    /// the alignment becomes at least the header's, the size is padded to
    /// that alignment and raised to at least the header's size.
    pub fn size_align(size: u64, align: u64) -> (r: (u64, u64))
        requires
            is_pow2(align as int),
            adjusted_size(size as int, align as int) <= u64::MAX as int,
        ensures
            r.0 == adjusted_size(size as int, align as int),
            r.1 == adjusted_align(align as int),
    {
        let align2 = if align < NODE_ALIGN {
            NODE_ALIGN
        } else {
            align
        };
        proof {
            lemma_pow2_pos(align as int);
            lemma_align_up(size as int, align2 as int);
        }
        let rem = size % align2;
        let padded = if rem == 0 {
            size
        } else {
            size + (align2 - rem)
        };
        let size2 = if padded < NODE_SIZE {
            NODE_SIZE
        } else {
            padded
        };
        (size2, align2)
    }
}

/// Free-list allocator over a fixed byte range.
pub struct LinkedListAllocator {
    /// The free regions, head of the list first.
    pub free_list: Vec<ListNode>,
    /// The heap range; carried only for the specification.
    pub bounds: Ghost<(int, int)>,
    /// The live allocations with their adjusted sizes; specification only.
    pub live: Ghost<Set<(int, int)>>,
}

impl View for LinkedListAllocator {
    type V = FreeListState;

    open spec fn view(&self) -> FreeListState {
        FreeListState {
            heap_start: self.bounds@.0,
            heap_end: self.bounds@.1,
            regions: self.free_list@.map_values(|n: ListNode| n@),
            live: self.live@,
        }
    }
}

impl LinkedListAllocator {
    /// Creates an empty free-list allocator; `init` gives it its heap range.
    pub fn new() -> (r: LinkedListAllocator)
        ensures
            r@ == (FreeListState {
                heap_start: 0,
                heap_end: 0,
                regions: Seq::<(int, int)>::empty(),
                live: Set::<(int, int)>::empty(),
            }),
            r@.wf(),
    {
        let r = LinkedListAllocator {
            free_list: Vec::new(),
            bounds: Ghost((0, 0)),
            live: Ghost(Set::empty()),
        };
        proof {
            assert(r@.regions =~= Seq::<(int, int)>::empty());
        }
        r
    }

    /// Hands the allocator its heap range, publishing the whole range as a
    /// single free region.  To be called exactly once, on a fresh
    /// allocator, after the range has been mapped.
    pub fn init(&mut self, heap_start: u64, heap_size: u64)
        requires
            old(self)@.regions.len() == 0,
            old(self)@.live == Set::<(int, int)>::empty(),
            heap_start % NODE_ALIGN == 0,
            heap_size >= NODE_SIZE,
            heap_start + heap_size <= u64::MAX as int,
        ensures
            final(self)@ == (FreeListState {
                heap_start: heap_start as int,
                heap_end: heap_start + heap_size,
                regions: seq![(heap_start as int, heap_size as int)],
                live: Set::<(int, int)>::empty(),
            }),
            final(self)@.wf(),
    {
        self.bounds = Ghost((heap_start as int, heap_start + heap_size));
        self.add_free_region(heap_start, heap_size);
        proof {
            assert(final(self)@.regions =~= seq![(heap_start as int, heap_size as int)]);
        }
    }

    /// Puts the region `(addr, size)` at the head of the free list.  The
    /// region must be able to hold a header and must overlap nothing the
    /// allocator already tracks.
    fn add_free_region(&mut self, addr: u64, size: u64)
        requires
            old(self)@.wf(),
            addr % NODE_ALIGN == 0,
            size >= NODE_SIZE,
            block_in_range((addr as int, size as int), old(self)@.heap_start, old(self)@.heap_end),
            forall|i: int|
                0 <= i < old(self)@.regions.len() ==> blocks_disjoint(
                    #[trigger] old(self)@.regions[i],
                    (addr as int, size as int),
                ),
            forall|b: (int, int)|
                old(self)@.live.contains(b) ==> blocks_disjoint(b, (addr as int, size as int)),
        ensures
            final(self)@ == (FreeListState {
                regions: old(self)@.regions.insert(0, (addr as int, size as int)),
                ..old(self)@
            }),
            final(self)@.wf(),
    {
        let node = ListNode::new(addr, size);
        self.free_list.insert(0, node);
        proof {
            assert(self@.regions =~= old(self)@.regions.insert(
                0,
                (addr as int, size as int),
            ));
        }
    }

    /// First-fit scan: removes and returns the first free region that
    /// admits the request, along with the aligned start address inside it.
    /// `size` and `align` are already adjusted.
    pub fn find_region(&mut self, size: u64, align: u64) -> (r: Option<(ListNode, u64)>)
        requires
            old(self)@.wf(),
            is_pow2(align as int),
        ensures
            old(self)@.heap_start == final(self)@.heap_start,
            old(self)@.heap_end == final(self)@.heap_end,
            final(self)@.live == old(self)@.live,
            r is Some <==> first_fit(old(self)@.regions, size as int, align as int) is Some,
            (match r {
                Some((node, a)) => {
                    let (i, fa) = first_fit(old(self)@.regions, size as int, align as int).unwrap();
                    &&& a == fa
                    &&& node@ == old(self)@.regions[i]
                    &&& region_fits(node@, size as int, align as int)
                    &&& a == spec_align_up(node@.0, align as int)
                    &&& final(self)@.regions == old(self)@.regions.remove(i)
                    &&& final(self)@.wf()
                },
                None => *final(self) == *old(self),
            }),
    {
        let ghost regions = self@.regions;
        let mut i: usize = 0;
        loop
            invariant
                self == old(self),
                regions == self@.regions,
                self@.wf(),
                is_pow2(align as int),
                0 <= i <= regions.len(),
                i <= self.free_list.len(),
                regions.len() == self.free_list.len(),
                first_fit(regions, size as int, align as int) == first_fit_from(
                    regions,
                    size as int,
                    align as int,
                    i as int,
                ),
            decreases regions.len() - i,
        {
            if i >= self.free_list.len() {
                return None;
            }
            let node_addr = self.free_list[i].addr;
            let node_size = self.free_list[i].size;
            let probe = ListNode::new(node_addr, node_size);
            proof {
                assert(probe@ == regions[i as int]);
                assert(block_in_range(regions[i as int], self@.heap_start, self@.heap_end));
            }
            match probe.can_hold(size, align) {
                Some(alloc_start) => {
                    let node = self.free_list.remove(i);
                    proof {
                        assert(self@.regions =~= regions.remove(i as int));
                    }
                    return Some((node, alloc_start));
                },
                None => {
                    i = i + 1;
                },
            }
        }
    }

    /// Allocates `size` bytes aligned to `align` by a first-fit scan of the
    /// free list; returns the block's address, or `None` when no free
    /// region admits the (adjusted) request.
    #[verifier::rlimit(100)]
    #[verifier::spinoff_prover]
    pub fn allocate(&mut self, size: u64, align: u64) -> (r: Option<u64>)
        requires
            old(self)@.wf(),
            is_pow2(align as int),
            size >= 1,
        ensures
            final(self)@.wf(),
            r is Some <==> old(self)@.can_alloc(size as int, align as int),
            (match r {
                Some(a) => {
                    &&& a == old(self)@.alloc_address(size as int, align as int)
                    &&& a as int % align as int == 0
                    &&& old(self)@.heap_start <= a
                    &&& a + size <= old(self)@.heap_end
                    &&& forall|b: (int, int)|
                        old(self)@.live.contains(b) ==> #[trigger] blocks_disjoint(
                            b,
                            (a as int, size as int),
                        )
                    &&& final(self)@ == old(self)@.after_alloc(size as int, align as int)
                },
                None => *final(self) == *old(self),
            }),
    {
        let align2 = if align < NODE_ALIGN {
            NODE_ALIGN
        } else {
            align
        };
        proof {
            lemma_pow2_pos(align as int);
            reveal_with_fuel(is_pow2, 4);
            assert(is_pow2(NODE_ALIGN as int));
            lemma_align_up(size as int, align2 as int);
        }
        let rem = size % align2;
        if rem != 0 && align2 - rem > u64::MAX - size {
            // The padded size is not representable, so no region inside the
            // heap can admit the request.
            proof {
                let ghost sz = adjusted_size(size as int, align as int);
                let ghost s = self@;
                assert forall|i: int| 0 <= i < s.regions.len() implies !region_fits(
                    #[trigger] s.regions[i],
                    sz,
                    align2 as int,
                ) by {
                    lemma_align_up(s.regions[i].0, align2 as int);
                }
                lemma_first_fit_none(s.regions, sz, align2 as int, 0);
            }
            return None;
        }
        let (size2, align2) = ListNode::size_align(size, align);
        match self.find_region(size2, align2) {
            Some((node, alloc_start)) => {
                let ghost i = first_fit(
                    old(self)@.regions,
                    size2 as int,
                    align2 as int,
                ).unwrap().0;
                proof {
                    lemma_first_fit_some(old(self)@.regions, size2 as int, align2 as int, 0);
                    assert(node@ == old(self)@.regions[i]);
                    assert(block_in_range(node@, old(self)@.heap_start, old(self)@.heap_end));
                    lemma_align_up(node@.0, align2 as int);
                }
                let alloc_end = alloc_start + size2;
                let remaining = node.end_addr() - alloc_end;
                let ghost mid = self@;
                proof {
                    // Everything still tracked is disjoint from the removed
                    // region, hence from the block and the tail carved out
                    // of it.
                    assert forall|j: int| 0 <= j < mid.regions.len() implies blocks_disjoint(
                        #[trigger] mid.regions[j],
                        node@,
                    ) by {
                        if j < i {
                            assert(mid.regions[j] == old(self)@.regions[j]);
                            assert(blocks_disjoint(old(self)@.regions[j], old(self)@.regions[i]));
                        } else {
                            assert(mid.regions[j] == old(self)@.regions[j + 1]);
                            assert(blocks_disjoint(
                                old(self)@.regions[j + 1],
                                old(self)@.regions[i],
                            ));
                        }
                    }
                    assert forall|b: (int, int)| mid.live.contains(b) implies blocks_disjoint(
                        b,
                        node@,
                    ) by {
                        assert(old(self)@.live.contains(b));
                        assert(blocks_disjoint(b, old(self)@.regions[i]));
                    }
                    // The block's start and the adjusted size are multiples
                    // of the header alignment, so the tail start is too.
                    lemma_pow2_divides(NODE_ALIGN as int, align2 as int);
                    lemma_divides_trans(alloc_start as int, NODE_ALIGN as int, align2 as int);
                    assert(size2 as int % NODE_ALIGN as int == 0) by {
                        if adjusted_size(size as int, align as int) == NODE_SIZE as int {
                        } else {
                            lemma_divides_trans(size2 as int, NODE_ALIGN as int, align2 as int);
                        }
                    }
                    lemma_add_mod_noop(alloc_start as int, size2 as int, NODE_ALIGN as int);
                    assert(alloc_end as int % NODE_ALIGN as int == 0);
                    // The returned address also meets the caller's alignment.
                    lemma_pow2_divides(align as int, align2 as int);
                    lemma_divides_trans(alloc_start as int, align as int, align2 as int);
                }
                if remaining > 0 {
                    proof {
                        let ghost tail = (alloc_end as int, remaining as int);
                        assert forall|j: int| 0 <= j < mid.regions.len() implies blocks_disjoint(
                            #[trigger] mid.regions[j],
                            tail,
                        ) by {
                            assert(blocks_disjoint(mid.regions[j], node@));
                        }
                        assert forall|b: (int, int)| mid.live.contains(b) implies blocks_disjoint(
                            b,
                            tail,
                        ) by {
                            assert(blocks_disjoint(b, node@));
                        }
                    }
                    self.add_free_region(alloc_end, remaining);
                }
                proof {
                    let ghost nb = (alloc_start as int, size2 as int);
                    if mid.live.contains(nb) {
                        assert(blocks_disjoint(nb, node@));
                    }
                    assert(!mid.live.contains(nb));
                }
                self.live = Ghost(self.live@.insert((alloc_start as int, size2 as int)));
                proof {
                    let ghost t = self@;
                    assert(t.regions =~= old(self)@.after_alloc(size as int, align as int).regions);
                    assert(t =~= old(self)@.after_alloc(size as int, align as int));
                    lemma_after_alloc(old(self)@, size as int, align as int);
                }
                Some(alloc_start)
            },
            None => None,
        }
    }

    /// Frees the block at `addr` allocated with `(size, align)`: the block,
    /// at its adjusted size, goes back to the head of the free list.
    pub fn deallocate(&mut self, addr: u64, size: u64, align: u64)
        requires
            old(self)@.wf(),
            is_pow2(align as int),
            old(self)@.live.contains(
                (addr as int, adjusted_size(size as int, align as int)),
            ),
        ensures
            final(self)@.wf(),
            final(self)@ == old(self)@.after_dealloc(addr as int, size as int, align as int),
    {
        proof {
            reveal_with_fuel(is_pow2, 4);
            assert(is_pow2(NODE_ALIGN as int));
            lemma_pow2_pos(align as int);
            lemma_align_up(size as int, adjusted_align(align as int));
            let ghost fb = (addr as int, adjusted_size(size as int, align as int));
            assert(block_in_range(fb, old(self)@.heap_start, old(self)@.heap_end));
        }
        let (size2, _) = ListNode::size_align(size, align);
        proof {
            let ghost s = old(self)@;
            let ghost fb = (addr as int, size2 as int);
            let ghost rest = s.live.remove(fb);
            assert(rest.insert(fb) =~= s.live);
            assert forall|i: int| 0 <= i < s.regions.len() implies blocks_disjoint(
                #[trigger] s.regions[i],
                fb,
            ) by {
                assert(blocks_disjoint(fb, s.regions[i]));
            }
            assert forall|b: (int, int)| rest.contains(b) implies blocks_disjoint(b, fb) by {
                assert(s.live.contains(b));
            }
        }
        self.live = Ghost(self.live@.remove((addr as int, size2 as int)));
        proof {
            let ghost s = old(self)@;
            let ghost m = self@;
            assert(m.regions == s.regions && m.heap_start == s.heap_start && m.heap_end
                == s.heap_end);
            assert forall|b: (int, int)| m.live.contains(b) implies #[trigger] block_in_range(
                b,
                m.heap_start,
                m.heap_end,
            ) && b.0 % NODE_ALIGN as int == 0 && b.1 >= NODE_SIZE as int by {
                assert(s.live.contains(b));
            }
            assert(set_pairwise_disjoint(m.live)) by {
                assert forall|x: (int, int), y: (int, int)|
                    m.live.contains(x) && m.live.contains(y) && x != y implies #[trigger]
                blocks_disjoint(x, y) by {
                    assert(s.live.contains(x) && s.live.contains(y));
                }
            }
            assert forall|b: (int, int), i: int|
                #![trigger m.live.contains(b), m.regions[i]]
                m.live.contains(b) && 0 <= i < m.regions.len() implies blocks_disjoint(
                b,
                m.regions[i],
            ) by {
                assert(s.live.contains(b));
                assert(blocks_disjoint(b, s.regions[i]));
            }
            lemma_wf_parts(m);
        }
        self.add_free_region(addr, size2);
        proof {
            assert(final(self)@ =~= old(self)@.after_dealloc(
                addr as int,
                size as int,
                align as int,
            ));
        }
    }
}

/// A successful allocation returns an address aligned as requested, inside
/// the heap, and disjoint from every live block (both as the caller's range
/// and at the adjusted size), and leaves the allocator well-formed.
pub proof fn lemma_after_alloc(s: FreeListState, size: int, align: int)
    requires
        s.wf(),
        is_pow2(align),
        size >= 1,
        s.can_alloc(size, align),
    ensures
        ({
            let sz = adjusted_size(size, align);
            let a = s.alloc_address(size, align);
            &&& s.after_alloc(size, align).wf()
            &&& a % align == 0
            &&& s.heap_start <= a
            &&& a + size <= s.heap_end
            &&& forall|b: (int, int)|
                s.live.contains(b) ==> #[trigger] blocks_disjoint(b, (a, size))
            &&& forall|b: (int, int)| s.live.contains(b) ==> #[trigger] blocks_disjoint(b, (a, sz))
        }),
{
    let sz = adjusted_size(size, align);
    let al = adjusted_align(align);
    lemma_pow2_pos(align);
    reveal_with_fuel(is_pow2, 4);
    assert(is_pow2(al));
    lemma_first_fit_some(s.regions, sz, al, 0);
    let (i, a) = first_fit(s.regions, sz, al).unwrap();
    let reg = s.regions[i];
    assert(block_in_range(reg, s.heap_start, s.heap_end));
    lemma_align_up(reg.0, al);
    lemma_align_up(size, al);
    lemma_pow2_divides(align, al);
    lemma_divides_trans(a, align, al);
    lemma_pow2_divides(NODE_ALIGN as int, al);
    lemma_divides_trans(a, NODE_ALIGN as int, al);
    assert(sz % NODE_ALIGN as int == 0) by {
        if sz != NODE_SIZE as int {
            lemma_pow2_divides(NODE_ALIGN as int, al);
            lemma_divides_trans(sz, NODE_ALIGN as int, al);
        }
    }
    lemma_add_mod_noop(a, sz, NODE_ALIGN as int);
    let end = a + sz;
    let rem = reg.0 + reg.1 - end;
    let t = s.after_alloc(size, align);
    let nb = (a, sz);
    assert forall|b: (int, int)| s.live.contains(b) implies #[trigger] blocks_disjoint(
        b,
        nb,
    ) by {
        assert(blocks_disjoint(b, reg));
    }
    assert forall|b: (int, int)| s.live.contains(b) implies #[trigger] blocks_disjoint(
        b,
        (a, size),
    ) by {
        assert(blocks_disjoint(b, nb));
    }
    assert forall|j: int|
        0 <= j < t.regions.len() implies ({
        let r = #[trigger] t.regions[j];
        block_in_range(r, t.heap_start, t.heap_end) && r.0 % NODE_ALIGN as int == 0 && r.1
            >= NODE_SIZE as int
    }) by {
        if rem > 0 {
            if j == 0 {
                assert(t.regions[0] == (end, rem));
            } else if j - 1 < i {
                assert(t.regions[j] == s.regions[j - 1]);
            } else {
                assert(t.regions[j] == s.regions[j]);
            }
        } else {
            if j < i {
                assert(t.regions[j] == s.regions[j]);
            } else {
                assert(t.regions[j] == s.regions[j + 1]);
            }
        }
    }
    // Which old region (if any) index `j` of the new list refers to.
    let back = |j: int|
        if rem > 0 {
            if j - 1 < i {
                j - 1
            } else {
                j
            }
        } else {
            if j < i {
                j
            } else {
                j + 1
            }
        };
    assert forall|j: int, l: int|
        0 <= j < t.regions.len() && 0 <= l < t.regions.len() && j != l implies blocks_disjoint(
        #[trigger] t.regions[j],
        #[trigger] t.regions[l],
    ) by {
        let tail_j = rem > 0 && j == 0;
        let tail_l = rem > 0 && l == 0;
        if !tail_j {
            assert(t.regions[j] == s.regions[back(j)]);
        }
        if !tail_l {
            assert(t.regions[l] == s.regions[back(l)]);
        }
        if tail_j {
            assert(blocks_disjoint(s.regions[back(l)], reg));
        } else if tail_l {
            assert(blocks_disjoint(s.regions[back(j)], reg));
        } else {
            assert(blocks_disjoint(s.regions[back(j)], s.regions[back(l)]));
        }
    }
    assert forall|b: (int, int)| t.live.contains(b) implies #[trigger] block_in_range(
        b,
        t.heap_start,
        t.heap_end,
    ) && b.0 % NODE_ALIGN as int == 0 && b.1 >= NODE_SIZE as int by {
        if b != nb {
            assert(s.live.contains(b));
        }
    }
    assert(set_pairwise_disjoint(t.live)) by {
        assert forall|x: (int, int), y: (int, int)|
            t.live.contains(x) && t.live.contains(y) && x != y implies #[trigger] blocks_disjoint(
            x,
            y,
        ) by {
            if x == nb {
                assert(s.live.contains(y));
                assert(blocks_disjoint(y, nb));
            } else if y == nb {
                assert(s.live.contains(x));
                assert(blocks_disjoint(x, nb));
            } else {
                assert(s.live.contains(x) && s.live.contains(y));
            }
        }
    }
    assert forall|b: (int, int), j: int|
        #![trigger t.live.contains(b), t.regions[j]]
        t.live.contains(b) && 0 <= j < t.regions.len() implies blocks_disjoint(
        b,
        t.regions[j],
    ) by {
        let tail_j = rem > 0 && j == 0;
        if !tail_j {
            assert(t.regions[j] == s.regions[back(j)]);
        }
        if b == nb {
            if tail_j {
            } else {
                assert(blocks_disjoint(s.regions[back(j)], reg));
            }
        } else {
            assert(s.live.contains(b));
            if tail_j {
                assert(blocks_disjoint(b, reg));
            } else {
                assert(blocks_disjoint(b, s.regions[back(j)]));
            }
        }
    }
    lemma_wf_parts(t);
}

/// No overlap: any two distinct live allocations of a well-formed free-list
/// allocator occupy disjoint byte ranges, and no live allocation overlaps a
/// free region.
pub proof fn lemma_free_list_live_disjoint(s: FreeListState, a: (int, int), b: (int, int))
    requires
        s.wf(),
        s.live.contains(a),
        s.live.contains(b),
        a != b,
    ensures
        blocks_disjoint(a, b),
{
}

/// Bounds: every live allocation of a well-formed free-list allocator lies
/// entirely inside the heap range.
pub proof fn lemma_free_list_live_in_heap(s: FreeListState, b: (int, int))
    requires
        s.wf(),
        s.live.contains(b),
    ensures
        s.heap_start <= b.0,
        b.0 + b.1 <= s.heap_end,
{
    assert(block_in_range(b, s.heap_start, s.heap_end));
}

/// Free-list stability: freeing a block that `allocate` returned and then
/// repeating the same request succeeds immediately, returns the same
/// address, and leaves the free list and the live set exactly as they were
/// before the free.  In particular, arbitrarily many such short-lived
/// cycles run without failure, and a long-lived allocation stays live and
/// untouched (it is disjoint from every block the cycles hand out, by
/// `lemma_free_list_live_disjoint`).
pub proof fn lemma_free_list_cycle(s: FreeListState, addr: int, size: int, align: int)
    requires
        s.wf(),
        is_pow2(align),
        size >= 1,
        s.live.contains((addr, adjusted_size(size, align))),
        addr % adjusted_align(align) == 0,
    ensures
        ({
            let s1 = s.after_dealloc(addr, size, align);
            &&& s1.wf()
            &&& s1.can_alloc(size, align)
            &&& s1.alloc_address(size, align) == addr
            &&& s1.after_alloc(size, align) == s
        }),
{
    let sz = adjusted_size(size, align);
    let al = adjusted_align(align);
    let fb = (addr, sz);
    let s1 = s.after_dealloc(addr, size, align);
    lemma_pow2_pos(align);
    assert(block_in_range(fb, s.heap_start, s.heap_end));
    lemma_align_up(addr, al);
    assert(spec_align_up(addr, al) == addr);
    assert(region_fits((addr, sz), sz, al));
    assert(s1.regions[0] == fb);
    assert(first_fit(s1.regions, sz, al) == Some((0int, addr)));
    assert(s1.wf()) by {
        assert forall|i: int, j: int|
            0 <= i < s1.regions.len() && 0 <= j < s1.regions.len() && i != j implies blocks_disjoint(
            #[trigger] s1.regions[i],
            #[trigger] s1.regions[j],
        ) by {
            if i == 0 {
                assert(s1.regions[j] == s.regions[j - 1]);
            } else if j == 0 {
                assert(s1.regions[i] == s.regions[i - 1]);
            } else {
                assert(s1.regions[i] == s.regions[i - 1]);
                assert(s1.regions[j] == s.regions[j - 1]);
            }
        }
        assert forall|b: (int, int), i: int|
            #![trigger s1.live.contains(b), s1.regions[i]]
            s1.live.contains(b) && 0 <= i < s1.regions.len() implies blocks_disjoint(
            b,
            s1.regions[i],
        ) by {
            assert(s.live.contains(b));
            if i == 0 {
                assert(blocks_disjoint(b, fb));
            } else {
                assert(s1.regions[i] == s.regions[i - 1]);
            }
        }
    }
    let s2 = s1.after_alloc(size, align);
    assert(s2.regions =~= s.regions);
    assert(s1.live.insert(fb) =~= s.live);
    assert(s2 =~= s);
}

} // verus!
