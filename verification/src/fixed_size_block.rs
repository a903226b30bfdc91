//! Fixed-size-block allocator: requests are rounded up to the smallest of
//! nine power-of-two size classes and served in O(1) from a per-class stack
//! of free blocks.  An empty class list is refilled with one block from the
//! fallback free-list allocator, sized and aligned to the class; oversized
//! or over-aligned requests go to the fallback directly.  Freed class
//! blocks go back onto their class stack and are never returned to the
//! fallback.

use crate::allocator::{block_in_range, blocks_disjoint, lemma_divides_trans, lemma_pow2_divides};
use crate::linked_list::{adjusted_size, FreeListState, LinkedListAllocator};
use vstd::arithmetic::power2::is_pow2;
use vstd::prelude::*;

verus! {

/// Number of size classes.
pub const BLOCK_CLASS_COUNT: usize = 9;

/// The block size (and alignment) of class `i`: 8, 16, ..., 2048 bytes.
/// The sizes are powers of two because they double as the block alignment.
pub open spec fn spec_block_size(i: int) -> int {
    if i == 0 {
        8
    } else if i == 1 {
        16
    } else if i == 2 {
        32
    } else if i == 3 {
        64
    } else if i == 4 {
        128
    } else if i == 5 {
        256
    } else if i == 6 {
        512
    } else if i == 7 {
        1024
    } else {
        2048
    }
}

/// Every class size is a power of two.
pub proof fn lemma_block_size_pow2(i: int)
    ensures
        is_pow2(spec_block_size(i)),
        spec_block_size(i) >= 8,
{
    reveal_with_fuel(is_pow2, 13);
}

/// The class that serves a request, if any: the smallest class at least
/// `max(size, align)`; `None` routes the request to the fallback.
pub open spec fn spec_block_index(size: int, align: int) -> Option<int> {
    let required = if size >= align {
        size
    } else {
        align
    };
    if required <= 8 {
        Some(0)
    } else if required <= 16 {
        Some(1)
    } else if required <= 32 {
        Some(2)
    } else if required <= 64 {
        Some(3)
    } else if required <= 128 {
        Some(4)
    } else if required <= 256 {
        Some(5)
    } else if required <= 512 {
        Some(6)
    } else if required <= 1024 {
        Some(7)
    } else if required <= 2048 {
        Some(8)
    } else {
        None
    }
}

/// Finds the smallest size class for the request, or `None` if only the
/// fallback allocator can serve it.
pub fn find_block_index(size: u64, align: u64) -> (r: Option<usize>)
    ensures
        (match r {
            Some(i) => {
                &&& spec_block_index(size as int, align as int) == Some(i as int)
                &&& i < BLOCK_CLASS_COUNT
                &&& size <= spec_block_size(i as int)
                &&& align <= spec_block_size(i as int)
            },
            None => spec_block_index(size as int, align as int) is None,
        }),
{
    let required = if size >= align {
        size
    } else {
        align
    };
    if required <= 8 {
        Some(0)
    } else if required <= 16 {
        Some(1)
    } else if required <= 32 {
        Some(2)
    } else if required <= 64 {
        Some(3)
    } else if required <= 128 {
        Some(4)
    } else if required <= 256 {
        Some(5)
    } else if required <= 512 {
        Some(6)
    } else if required <= 1024 {
        Some(7)
    } else if required <= 2048 {
        Some(8)
    } else {
        None
    }
}

/// The footprint a class block occupies inside the fallback allocator: one
/// fallback allocation of `(class, class)`.
pub open spec fn class_footprint(i: int) -> int {
    adjusted_size(spec_block_size(i), spec_block_size(i))
}

/// Mathematical state of the fixed-size-block allocator: the per-class
/// stacks of free block addresses, the fallback allocator's state, and the
/// live allocations as (address, size, align) triples.
#[verifier::ext_equal]
pub ghost struct FixedState {
    pub classes: Seq<Seq<int>>,
    pub fallback: FreeListState,
    pub live: Set<(int, int, int)>,
}

impl FixedState {
    /// The fallback footprint backing the live triple `t`.
    pub open spec fn live_footprint(t: (int, int, int)) -> (int, int) {
        match spec_block_index(t.1, t.2) {
            Some(i) => (t.0, class_footprint(i)),
            None => (t.0, adjusted_size(t.1, t.2)),
        }
    }

    /// Well-formed.  Every free class block and every live block sits inside
    /// a block the fallback allocator considers live (class blocks keep
    /// their fallback footprint forever), all tracked addresses are
    /// distinct, and the fallback itself is well-formed — which makes all
    /// tracked byte ranges pairwise disjoint.
    pub open spec fn wf(self) -> bool {
        &&& self.classes.len() == BLOCK_CLASS_COUNT as int
        &&& self.fallback.wf()
        &&& forall|i: int, k: int|
            #![trigger self.classes[i][k]]
            0 <= i < self.classes.len() && 0 <= k < self.classes[i].len() ==> {
                let a = self.classes[i][k];
                a % spec_block_size(i) == 0 && self.fallback.live.contains(
                    (a, class_footprint(i)),
                )
            }
        &&& forall|t: (int, int, int)|
            #[trigger] self.live.contains(t) ==> self.fallback.live.contains(
                Self::live_footprint(t),
            ) && t.1 >= 1 && is_pow2(t.2) && (spec_block_index(t.1, t.2) matches Some(i) ==> t.0
                % spec_block_size(i) == 0)
        &&& forall|i: int, k: int, j: int, l: int|
            #![trigger self.classes[i][k], self.classes[j][l]]
            0 <= i < self.classes.len() && 0 <= k < self.classes[i].len() && 0 <= j
                < self.classes.len() && 0 <= l < self.classes[j].len() && (i != j || k != l)
                ==> self.classes[i][k] != self.classes[j][l]
        &&& forall|i: int, k: int, t: (int, int, int)|
            #![trigger self.classes[i][k], self.live.contains(t)]
            0 <= i < self.classes.len() && 0 <= k < self.classes[i].len() && self.live.contains(t)
                ==> self.classes[i][k] != t.0
        &&& forall|t: (int, int, int), u: (int, int, int)|
            #![trigger self.live.contains(t), self.live.contains(u)]
            self.live.contains(t) && self.live.contains(u) && t != u ==> t.0 != u.0
        &&& self.live.finite()
    }

    /// State after serving `(size, align)` from the free blocks of class `i`:
    /// the stack top becomes a live allocation.
    pub open spec fn after_pop(self, i: int, size: int, align: int) -> FixedState {
        let a = self.classes[i].last();
        FixedState {
            classes: self.classes.update(i, self.classes[i].drop_last()),
            live: self.live.insert((a, size, align)),
            ..self
        }
    }

    /// State after serving `(size, align)` of class `i` with a fresh block
    /// from the fallback allocator, requested at the class size and
    /// alignment.
    pub open spec fn after_refill(self, i: int, size: int, align: int) -> FixedState {
        let c = spec_block_size(i);
        let a = self.fallback.alloc_address(c, c);
        FixedState {
            fallback: self.fallback.after_alloc(c, c),
            live: self.live.insert((a, size, align)),
            ..self
        }
    }

    /// State after serving an oversized `(size, align)` from the fallback
    /// allocator directly.
    pub open spec fn after_oversize(self, size: int, align: int) -> FixedState {
        let a = self.fallback.alloc_address(size, align);
        FixedState {
            fallback: self.fallback.after_alloc(size, align),
            live: self.live.insert((a, size, align)),
            ..self
        }
    }

    /// State after freeing the class-`i` live block at `addr`: the block
    /// goes back onto its class stack.
    pub open spec fn after_push(self, i: int, addr: int, size: int, align: int) -> FixedState {
        FixedState {
            classes: self.classes.update(i, self.classes[i].push(addr)),
            live: self.live.remove((addr, size, align)),
            ..self
        }
    }

    /// State after freeing an oversized live block through the fallback
    /// allocator.
    pub open spec fn after_fallback_free(self, addr: int, size: int, align: int) -> FixedState {
        FixedState {
            fallback: self.fallback.after_dealloc(addr, size, align),
            live: self.live.remove((addr, size, align)),
            ..self
        }
    }
}

/// Assembles well-formedness from its clauses, keeping proof contexts small.
proof fn lemma_fixed_wf_parts(s: FixedState)
    requires
        s.classes.len() == BLOCK_CLASS_COUNT as int,
        s.fallback.wf(),
        forall|i: int, k: int|
            #![trigger s.classes[i][k]]
            0 <= i < s.classes.len() && 0 <= k < s.classes[i].len() ==> {
                let a = s.classes[i][k];
                a % spec_block_size(i) == 0 && s.fallback.live.contains((a, class_footprint(i)))
            },
        forall|t: (int, int, int)|
            #[trigger] s.live.contains(t) ==> s.fallback.live.contains(FixedState::live_footprint(t))
                && t.1 >= 1 && is_pow2(t.2) && (spec_block_index(t.1, t.2) matches Some(i) ==> t.0
                % spec_block_size(i) == 0),
        forall|i: int, k: int, j: int, l: int|
            #![trigger s.classes[i][k], s.classes[j][l]]
            0 <= i < s.classes.len() && 0 <= k < s.classes[i].len() && 0 <= j < s.classes.len() && 0
                <= l < s.classes[j].len() && (i != j || k != l) ==> s.classes[i][k]
                != s.classes[j][l],
        forall|i: int, k: int, t: (int, int, int)|
            #![trigger s.classes[i][k], s.live.contains(t)]
            0 <= i < s.classes.len() && 0 <= k < s.classes[i].len() && s.live.contains(t)
                ==> s.classes[i][k] != t.0,
        forall|t: (int, int, int), u: (int, int, int)|
            #![trigger s.live.contains(t), s.live.contains(u)]
            s.live.contains(t) && s.live.contains(u) && t != u ==> t.0 != u.0,
        s.live.finite(),
    ensures
        s.wf(),
{
}

/// The user range of a live triple is covered by its fallback footprint.
pub proof fn lemma_fixed_footprint_covers(t: (int, int, int))
    requires
        t.1 >= 1,
        is_pow2(t.2),
    ensures
        FixedState::live_footprint(t).0 == t.0,
        FixedState::live_footprint(t).1 >= t.1,
{
    match spec_block_index(t.1, t.2) {
        Some(i) => {
            lemma_block_size_pow2(i);
            let c = spec_block_size(i);
            crate::allocator::lemma_align_up(c, crate::linked_list::adjusted_align(c));
        },
        None => {
            crate::allocator::lemma_pow2_pos(t.2);
            crate::allocator::lemma_align_up(t.1, crate::linked_list::adjusted_align(t.2));
        },
    }
}

/// No overlap: the byte ranges of two distinct live allocations of a
/// well-formed fixed-size-block allocator are disjoint.
pub proof fn lemma_fixed_live_disjoint(s: FixedState, t: (int, int, int), u: (int, int, int))
    requires
        s.wf(),
        s.live.contains(t),
        s.live.contains(u),
        t != u,
    ensures
        blocks_disjoint((t.0, t.1), (u.0, u.1)),
{
    let ft = FixedState::live_footprint(t);
    let fu = FixedState::live_footprint(u);
    lemma_fixed_footprint_covers(t);
    lemma_fixed_footprint_covers(u);
    assert(t.0 != u.0);
    assert(blocks_disjoint(ft, fu));
}

/// Bounds: every live allocation of a well-formed fixed-size-block
/// allocator lies entirely inside the heap range.
pub proof fn lemma_fixed_live_in_heap(s: FixedState, t: (int, int, int))
    requires
        s.wf(),
        s.live.contains(t),
    ensures
        s.fallback.heap_start <= t.0,
        t.0 + t.1 <= s.fallback.heap_end,
{
    let ft = FixedState::live_footprint(t);
    lemma_fixed_footprint_covers(t);
    assert(block_in_range(ft, s.fallback.heap_start, s.fallback.heap_end));
}

/// A class block's fallback footprint covers the class size.
pub proof fn lemma_class_footprint(i: int)
    ensures
        class_footprint(i) >= spec_block_size(i),
        class_footprint(i) >= crate::linked_list::NODE_SIZE as int,
{
    lemma_block_size_pow2(i);
    let c = spec_block_size(i);
    vstd::arithmetic::div_mod::lemma_mod_self_0(c);
    crate::allocator::lemma_align_up(c, crate::linked_list::adjusted_align(c));
}

/// Serving a request from a non-empty class stack: the block is aligned, in
/// bounds, disjoint from every live allocation, and the state stays
/// well-formed.
pub proof fn lemma_fixed_pop(s: FixedState, i: int, size: int, align: int)
    requires
        s.wf(),
        size >= 1,
        is_pow2(align),
        spec_block_index(size, align) == Some(i),
        s.classes[i].len() > 0,
    ensures
        ({
            let a = s.classes[i].last();
            &&& s.after_pop(i, size, align).wf()
            &&& a % align == 0
            &&& s.fallback.heap_start <= a
            &&& a + size <= s.fallback.heap_end
            &&& forall|u: (int, int, int)|
                s.live.contains(u) ==> #[trigger] blocks_disjoint((u.0, u.1), (a, size))
        }),
{
    let c = spec_block_size(i);
    let a = s.classes[i].last();
    let k0 = s.classes[i].len() - 1;
    assert(a == s.classes[i][k0]);
    assert(a % c == 0 && s.fallback.live.contains((a, class_footprint(i))));
    let f0 = (a, class_footprint(i));
    lemma_block_size_pow2(i);
    lemma_class_footprint(i);
    crate::allocator::lemma_pow2_pos(align);
    lemma_pow2_divides(align, c);
    lemma_divides_trans(a, align, c);
    assert(block_in_range(f0, s.fallback.heap_start, s.fallback.heap_end));
    let t0 = (a, size, align);
    assert(FixedState::live_footprint(t0) == f0);
    assert forall|u: (int, int, int)| s.live.contains(u) implies #[trigger] blocks_disjoint(
        (u.0, u.1),
        (a, size),
    ) by {
        let fu = FixedState::live_footprint(u);
        lemma_fixed_footprint_covers(u);
        assert(u.0 != a);
        assert(blocks_disjoint(fu, f0));
    }
    let t = s.after_pop(i, size, align);
    assert forall|j: int, k: int|
        #![trigger t.classes[j][k]]
        0 <= j < t.classes.len() && 0 <= k < t.classes[j].len() implies ({
        let e = t.classes[j][k];
        e % spec_block_size(j) == 0 && t.fallback.live.contains((e, class_footprint(j)))
    }) by {
        assert(t.classes[j][k] == s.classes[j][k]);
    }
    assert forall|u: (int, int, int)| #[trigger]
    t.live.contains(u) implies t.fallback.live.contains(FixedState::live_footprint(u)) && u.1 >= 1
        && is_pow2(u.2) && (spec_block_index(u.1, u.2) matches Some(j) ==> u.0 % spec_block_size(j)
        == 0) by {
        if u != t0 {
            assert(s.live.contains(u));
        }
    }
    assert forall|j: int, k: int, j2: int, l: int|
        #![trigger t.classes[j][k], t.classes[j2][l]]
        0 <= j < t.classes.len() && 0 <= k < t.classes[j].len() && 0 <= j2 < t.classes.len() && 0
        <= l < t.classes[j2].len() && (j != j2 || k != l) implies t.classes[j][k]
        != t.classes[j2][l] by {
        assert(t.classes[j][k] == s.classes[j][k]);
        assert(t.classes[j2][l] == s.classes[j2][l]);
    }
    assert forall|j: int, k: int, u: (int, int, int)|
        #![trigger t.classes[j][k], t.live.contains(u)]
        0 <= j < t.classes.len() && 0 <= k < t.classes[j].len() && t.live.contains(
        u,
    ) implies t.classes[j][k] != u.0 by {
        assert(t.classes[j][k] == s.classes[j][k]);
        if u == t0 {
            assert(s.classes[j][k] != s.classes[i][k0]) by {
                assert(!(j == i && k == k0));
            }
        } else {
            assert(s.live.contains(u));
        }
    }
    assert forall|u: (int, int, int), v: (int, int, int)|
        #![trigger t.live.contains(u), t.live.contains(v)]
        t.live.contains(u) && t.live.contains(v) && u != v implies u.0 != v.0 by {
        if u == t0 {
            assert(s.live.contains(v));
        } else if v == t0 {
            assert(s.live.contains(u));
        } else {
            assert(s.live.contains(u) && s.live.contains(v));
        }
    }
    lemma_fixed_wf_parts(t);
}

/// Refilling a class from the fallback, or serving an oversized request
/// from it: the new block is aligned, in bounds, disjoint from every live
/// allocation, and the state stays well-formed.  `creq` and `areq` are what
/// is requested from the fallback: the class size twice for a refill, the
/// caller's own size and alignment for an oversized request.
pub proof fn lemma_fixed_from_fallback(s: FixedState, size: int, align: int, creq: int, areq: int)
    requires
        s.wf(),
        size >= 1,
        is_pow2(align),
        creq >= 1,
        is_pow2(areq),
        s.fallback.can_alloc(creq, areq),
        size <= creq,
        (match spec_block_index(size, align) {
            Some(i) => creq == spec_block_size(i) && areq == creq,
            None => creq == size && areq == align,
        }),
    ensures
        ({
            let a = s.fallback.alloc_address(creq, areq);
            let t = (match spec_block_index(size, align) {
                Some(i) => s.after_refill(i, size, align),
                None => s.after_oversize(size, align),
            });
            &&& t.wf()
            &&& a % align == 0
            &&& s.fallback.heap_start <= a
            &&& a + size <= s.fallback.heap_end
            &&& forall|u: (int, int, int)|
                s.live.contains(u) ==> #[trigger] blocks_disjoint((u.0, u.1), (a, size))
        }),
{
    let a = s.fallback.alloc_address(creq, areq);
    let sz = adjusted_size(creq, areq);
    crate::linked_list::lemma_after_alloc(s.fallback, creq, areq);
    let fb2 = s.fallback.after_alloc(creq, areq);
    let f0 = (a, sz);
    assert(fb2.live == s.fallback.live.insert(f0));
    assert(f0.1 >= crate::linked_list::NODE_SIZE as int);
    let t0 = (a, size, align);
    match spec_block_index(size, align) {
        Some(i) => {
            lemma_block_size_pow2(i);
            crate::allocator::lemma_pow2_pos(align);
            lemma_pow2_divides(align, creq);
            lemma_divides_trans(a, align, creq);
            assert(FixedState::live_footprint(t0) == f0);
        },
        None => {
            assert(FixedState::live_footprint(t0) == f0);
        },
    }
    // Every footprint already tracked is an old fallback block, disjoint
    // from the new one; in particular no tracked address equals `a`.
    assert forall|fu: (int, int)| #[trigger]
    s.fallback.live.contains(fu) implies fu.0 != a && blocks_disjoint(fu, f0) by {
        assert(blocks_disjoint(fu, (a, creq)));
        assert(block_in_range(fu, s.fallback.heap_start, s.fallback.heap_end));
        assert(fu.1 >= crate::linked_list::NODE_SIZE as int);
    }
    assert forall|u: (int, int, int)| #[trigger]
    s.live.contains(u) implies blocks_disjoint((u.0, u.1), (a, size)) && u.0 != a by {
        let fu = FixedState::live_footprint(u);
        lemma_fixed_footprint_covers(u);
        assert(blocks_disjoint(fu, f0));
    }
    let t = (match spec_block_index(size, align) {
        Some(i) => s.after_refill(i, size, align),
        None => s.after_oversize(size, align),
    });
    assert(t.classes == s.classes && t.fallback == fb2 && t.live == s.live.insert(t0));
    assert forall|j: int, k: int|
        #![trigger t.classes[j][k]]
        0 <= j < t.classes.len() && 0 <= k < t.classes[j].len() implies ({
        let e = t.classes[j][k];
        e % spec_block_size(j) == 0 && t.fallback.live.contains((e, class_footprint(j)))
    }) by {
        assert(s.fallback.live.contains((s.classes[j][k], class_footprint(j))));
    }
    assert forall|u: (int, int, int)| #[trigger]
    t.live.contains(u) implies t.fallback.live.contains(FixedState::live_footprint(u)) && u.1 >= 1
        && is_pow2(u.2) && (spec_block_index(u.1, u.2) matches Some(j) ==> u.0 % spec_block_size(j)
        == 0) by {
        if u != t0 {
            assert(s.live.contains(u));
        }
    }
    assert forall|j: int, k: int, u: (int, int, int)|
        #![trigger t.classes[j][k], t.live.contains(u)]
        0 <= j < t.classes.len() && 0 <= k < t.classes[j].len() && t.live.contains(
        u,
    ) implies t.classes[j][k] != u.0 by {
        let e = s.classes[j][k];
        if u == t0 {
            assert(s.fallback.live.contains((e, class_footprint(j))));
            assert((e, class_footprint(j)).0 != a);
        } else {
            assert(s.live.contains(u));
        }
    }
    assert forall|u: (int, int, int), v: (int, int, int)|
        #![trigger t.live.contains(u), t.live.contains(v)]
        t.live.contains(u) && t.live.contains(v) && u != v implies u.0 != v.0 by {
        if u == t0 {
            assert(s.live.contains(v));
        } else if v == t0 {
            assert(s.live.contains(u));
        } else {
            assert(s.live.contains(u) && s.live.contains(v));
        }
    }
    lemma_fixed_wf_parts(t);
}

/// Freeing a class block pushes it back onto its class stack; the state
/// stays well-formed.
pub proof fn lemma_fixed_push(s: FixedState, i: int, addr: int, size: int, align: int)
    requires
        s.wf(),
        s.live.contains((addr, size, align)),
        spec_block_index(size, align) == Some(i),
    ensures
        s.after_push(i, addr, size, align).wf(),
{
    let t0 = (addr, size, align);
    let t = s.after_push(i, addr, size, align);
    let kn = s.classes[i].len();
    assert(FixedState::live_footprint(t0) == (addr, class_footprint(i)));
    assert forall|j: int, k: int|
        #![trigger t.classes[j][k]]
        0 <= j < t.classes.len() && 0 <= k < t.classes[j].len() implies ({
        let e = t.classes[j][k];
        e % spec_block_size(j) == 0 && t.fallback.live.contains((e, class_footprint(j)))
    }) by {
        if j == i && k == kn {
            assert(t.classes[j][k] == addr);
        } else {
            assert(t.classes[j][k] == s.classes[j][k]);
        }
    }
    assert forall|j: int, k: int, j2: int, l: int|
        #![trigger t.classes[j][k], t.classes[j2][l]]
        0 <= j < t.classes.len() && 0 <= k < t.classes[j].len() && 0 <= j2 < t.classes.len() && 0
        <= l < t.classes[j2].len() && (j != j2 || k != l) implies t.classes[j][k]
        != t.classes[j2][l] by {
        if j == i && k == kn {
            assert(t.classes[j2][l] == s.classes[j2][l]);
            assert(s.classes[j2][l] != t0.0);
        } else if j2 == i && l == kn {
            assert(t.classes[j][k] == s.classes[j][k]);
            assert(s.classes[j][k] != t0.0);
        } else {
            assert(t.classes[j][k] == s.classes[j][k]);
            assert(t.classes[j2][l] == s.classes[j2][l]);
        }
    }
    assert forall|j: int, k: int, u: (int, int, int)|
        #![trigger t.classes[j][k], t.live.contains(u)]
        0 <= j < t.classes.len() && 0 <= k < t.classes[j].len() && t.live.contains(
        u,
    ) implies t.classes[j][k] != u.0 by {
        assert(s.live.contains(u));
        if j == i && k == kn {
            assert(t.classes[j][k] == addr);
            assert(u != t0);
        } else {
            assert(t.classes[j][k] == s.classes[j][k]);
        }
    }
    assert forall|u: (int, int, int)| #[trigger]
    t.live.contains(u) implies t.fallback.live.contains(FixedState::live_footprint(u)) && u.1 >= 1
        && is_pow2(u.2) && (spec_block_index(u.1, u.2) matches Some(j) ==> u.0 % spec_block_size(j)
        == 0) by {
        assert(s.live.contains(u));
    }
    assert forall|u: (int, int, int), v: (int, int, int)|
        #![trigger t.live.contains(u), t.live.contains(v)]
        t.live.contains(u) && t.live.contains(v) && u != v implies u.0 != v.0 by {
        assert(s.live.contains(u) && s.live.contains(v));
    }
    lemma_fixed_wf_parts(t);
}

/// Freeing an oversized block returns it to the fallback allocator; the
/// state stays well-formed.
pub proof fn lemma_fixed_fallback_free(s: FixedState, addr: int, size: int, align: int)
    requires
        s.wf(),
        is_pow2(align),
        s.live.contains((addr, size, align)),
        spec_block_index(size, align) is None,
    ensures
        s.fallback.live.contains((addr, adjusted_size(size, align))),
        ({
            let t = s.after_fallback_free(addr, size, align);
            (s.fallback.after_dealloc(addr, size, align).wf()) ==> t.wf()
        }),
{
    let t0 = (addr, size, align);
    let fr = (addr, adjusted_size(size, align));
    assert(FixedState::live_footprint(t0) == fr);
    let t = s.after_fallback_free(addr, size, align);
    if s.fallback.after_dealloc(addr, size, align).wf() {
        assert(t.fallback.live == s.fallback.live.remove(fr));
        assert forall|j: int, k: int|
            #![trigger t.classes[j][k]]
            0 <= j < t.classes.len() && 0 <= k < t.classes[j].len() implies ({
            let e = t.classes[j][k];
            e % spec_block_size(j) == 0 && t.fallback.live.contains((e, class_footprint(j)))
        }) by {
            let e = s.classes[j][k];
            assert(e != t0.0);
            assert(s.fallback.live.contains((e, class_footprint(j))));
            assert((e, class_footprint(j)) != fr);
        }
        assert forall|u: (int, int, int)| #[trigger]
        t.live.contains(u) implies t.fallback.live.contains(FixedState::live_footprint(u)) && u.1
            >= 1 && is_pow2(u.2) && (spec_block_index(u.1, u.2) matches Some(j) ==> u.0
            % spec_block_size(j) == 0) by {
            assert(s.live.contains(u));
            assert(u != t0);
            assert(FixedState::live_footprint(u).0 == u.0);
            assert(FixedState::live_footprint(u) != fr);
        }
        assert forall|j: int, k: int, u: (int, int, int)|
            #![trigger t.classes[j][k], t.live.contains(u)]
            0 <= j < t.classes.len() && 0 <= k < t.classes[j].len() && t.live.contains(
            u,
        ) implies t.classes[j][k] != u.0 by {
            assert(s.live.contains(u));
            assert(t.classes[j][k] == s.classes[j][k]);
        }
        assert forall|u: (int, int, int), v: (int, int, int)|
            #![trigger t.live.contains(u), t.live.contains(v)]
            t.live.contains(u) && t.live.contains(v) && u != v implies u.0 != v.0 by {
            assert(s.live.contains(u) && s.live.contains(v));
        }
        lemma_fixed_wf_parts(t);
    }
}

/// Fixed-size-block allocator: nine per-class stacks of free blocks over a
/// fallback free-list allocator.
pub struct FixedSizeBlockAllocator {
    /// Free blocks per size class; the end of each vector is the stack top.
    pub list_heads: Vec<Vec<u64>>,
    /// Serves class refills and oversized requests.
    pub fallback_allocator: LinkedListAllocator,
    /// The live allocations as (address, size, align); specification only.
    pub live: Ghost<Set<(int, int, int)>>,
}

impl View for FixedSizeBlockAllocator {
    type V = FixedState;

    open spec fn view(&self) -> FixedState {
        FixedState {
            classes: self.list_heads@.map_values(|v: Vec<u64>| v@.map_values(|a: u64| a as int)),
            fallback: self.fallback_allocator@,
            live: self.live@,
        }
    }
}

impl FixedSizeBlockAllocator {
    /// Creates an empty allocator; `init` gives it its heap range.
    pub fn new() -> (r: FixedSizeBlockAllocator)
        ensures
            r@.wf(),
            r@.classes.len() == BLOCK_CLASS_COUNT as int,
            forall|i: int| 0 <= i < BLOCK_CLASS_COUNT as int ==> #[trigger] r@.classes[i].len() == 0,
            r@.fallback.regions.len() == 0,
            r@.fallback.live == Set::<(int, int)>::empty(),
            r@.live == Set::<(int, int, int)>::empty(),
    {
        let mut heads: Vec<Vec<u64>> = Vec::new();
        let mut i: usize = 0;
        while i < BLOCK_CLASS_COUNT
            invariant
                0 <= i <= BLOCK_CLASS_COUNT,
                heads@.len() == i,
                forall|j: int| 0 <= j < i ==> #[trigger] heads@[j]@.len() == 0,
            decreases BLOCK_CLASS_COUNT - i,
        {
            heads.push(Vec::new());
            i = i + 1;
        }
        let r = FixedSizeBlockAllocator {
            list_heads: heads,
            fallback_allocator: LinkedListAllocator::new(),
            live: Ghost(Set::empty()),
        };
        r
    }

    /// Hands the whole heap range to the fallback allocator.  To be called
    /// exactly once, on a fresh allocator, after the range has been mapped.
    pub fn init(&mut self, heap_start: u64, heap_size: u64)
        requires
            old(self)@.wf(),
            forall|i: int|
                0 <= i < BLOCK_CLASS_COUNT as int ==> #[trigger] old(self)@.classes[i].len() == 0,
            old(self)@.fallback.regions.len() == 0,
            old(self)@.fallback.live == Set::<(int, int)>::empty(),
            old(self)@.live == Set::<(int, int, int)>::empty(),
            heap_start % crate::linked_list::NODE_ALIGN == 0,
            heap_size >= crate::linked_list::NODE_SIZE,
            heap_start + heap_size <= u64::MAX as int,
        ensures
            final(self)@.wf(),
            final(self)@.classes == old(self)@.classes,
            final(self)@.live == old(self)@.live,
            final(self)@.fallback == (FreeListState {
                heap_start: heap_start as int,
                heap_end: heap_start + heap_size,
                regions: seq![(heap_start as int, heap_size as int)],
                live: Set::<(int, int)>::empty(),
            }),
    {
        self.fallback_allocator.init(heap_start, heap_size);
    }

    /// Serves a request from the fallback free-list allocator.
    fn fallback_alloc(&mut self, size: u64, align: u64) -> (r: Option<u64>)
        requires
            old(self)@.fallback.wf(),
            is_pow2(align as int),
            size >= 1,
        ensures
            final(self)@.classes == old(self)@.classes,
            final(self)@.live == old(self)@.live,
            final(self)@.fallback.wf(),
            r is Some <==> old(self)@.fallback.can_alloc(size as int, align as int),
            (match r {
                Some(a) => {
                    &&& a == old(self)@.fallback.alloc_address(size as int, align as int)
                    &&& a as int % align as int == 0
                    &&& old(self)@.fallback.heap_start <= a
                    &&& a + size <= old(self)@.fallback.heap_end
                    &&& forall|b: (int, int)|
                        old(self)@.fallback.live.contains(b) ==> #[trigger] blocks_disjoint(
                            b,
                            (a as int, size as int),
                        )
                    &&& final(self)@.fallback == old(self)@.fallback.after_alloc(
                        size as int,
                        align as int,
                    )
                },
                None => final(self)@.fallback == old(self)@.fallback,
            }),
    {
        self.fallback_allocator.allocate(size, align)
    }

    /// Mutable access to the free-block stack of class `index`.
    fn class_stack_mut(v: &mut Vec<Vec<u64>>, index: usize) -> (r: &mut Vec<u64>)
        requires
            index < old(v)@.len(),
        ensures
            *r == old(v)@[index as int],
            final(v)@ == old(v)@.update(index as int, *final(r)),
    {
        &mut v[index]
    }

    /// The block size of class `i`.
    fn block_size_at(i: usize) -> (r: u64)
        requires
            i < BLOCK_CLASS_COUNT,
        ensures
            r == spec_block_size(i as int),
    {
        if i == 0 {
            8
        } else if i == 1 {
            16
        } else if i == 2 {
            32
        } else if i == 3 {
            64
        } else if i == 4 {
            128
        } else if i == 5 {
            256
        } else if i == 6 {
            512
        } else if i == 7 {
            1024
        } else {
            2048
        }
    }

    /// Allocates `size` bytes aligned to `align`: pops a free block of the
    /// smallest fitting class, refills the class from the fallback if the
    /// stack is empty, and serves oversized requests from the fallback
    /// directly.  Returns `None` when the fallback cannot supply the block.
    pub fn allocate(&mut self, size: u64, align: u64) -> (r: Option<u64>)
        requires
            old(self)@.wf(),
            is_pow2(align as int),
            size >= 1,
        ensures
            final(self)@.wf(),
            r is Some <==> (match spec_block_index(size as int, align as int) {
                Some(i) => old(self)@.classes[i].len() > 0 || old(self)@.fallback.can_alloc(
                    spec_block_size(i),
                    spec_block_size(i),
                ),
                None => old(self)@.fallback.can_alloc(size as int, align as int),
            }),
            (match r {
                Some(a) => {
                    &&& a as int % align as int == 0
                    &&& old(self)@.fallback.heap_start <= a
                    &&& a + size <= old(self)@.fallback.heap_end
                    &&& forall|u: (int, int, int)|
                        old(self)@.live.contains(u) ==> #[trigger] blocks_disjoint(
                            (u.0, u.1),
                            (a as int, size as int),
                        )
                    &&& final(self)@ == (match spec_block_index(size as int, align as int) {
                        Some(i) => if old(self)@.classes[i].len() > 0 {
                            old(self)@.after_pop(i, size as int, align as int)
                        } else {
                            old(self)@.after_refill(i, size as int, align as int)
                        },
                        None => old(self)@.after_oversize(size as int, align as int),
                    })
                    &&& final(self)@.live == old(self)@.live.insert(
                        (a as int, size as int, align as int),
                    )
                },
                None => final(self)@ == old(self)@,
            }),
    {
        match find_block_index(size, align) {
            Some(index) => {
                let ghost i = index as int;
                let nonempty = self.list_heads[index].len() > 0;
                if nonempty {
                    let inner = Self::class_stack_mut(&mut self.list_heads, index);
                    let addr = inner.pop().unwrap();
                    proof {
                        let ghost cs = self@.classes;
                        let ghost os = old(self)@.classes.update(
                            i,
                            old(self)@.classes[i].drop_last(),
                        );
                        assert(cs[i] =~= os[i]);
                        assert(cs =~= os);
                        lemma_fixed_pop(old(self)@, i, size as int, align as int);
                        assert(addr == old(self)@.classes[i].last());
                    }
                    self.live = Ghost(
                        self.live@.insert((addr as int, size as int, align as int)),
                    );
                    proof {
                        assert(self@ =~= old(self)@.after_pop(i, size as int, align as int));
                    }
                    Some(addr)
                } else {
                    // The class stack is empty: take one block of the class
                    // size and alignment from the fallback allocator.
                    let block_size = Self::block_size_at(index);
                    proof {
                        lemma_block_size_pow2(i);
                    }
                    match self.fallback_alloc(block_size, block_size) {
                        Some(addr) => {
                            proof {
                                lemma_fixed_from_fallback(
                                    old(self)@,
                                    size as int,
                                    align as int,
                                    block_size as int,
                                    block_size as int,
                                );
                            }
                            self.live = Ghost(
                                self.live@.insert((addr as int, size as int, align as int)),
                            );
                            proof {
                                assert(self@ =~= old(self)@.after_refill(
                                    i,
                                    size as int,
                                    align as int,
                                ));
                            }
                            Some(addr)
                        },
                        None => None,
                    }
                }
            },
            None => {
                // The request exceeds every class: the fallback serves it.
                match self.fallback_alloc(size, align) {
                    Some(addr) => {
                        proof {
                            lemma_fixed_from_fallback(
                                old(self)@,
                                size as int,
                                align as int,
                                size as int,
                                align as int,
                            );
                        }
                        self.live = Ghost(
                            self.live@.insert((addr as int, size as int, align as int)),
                        );
                        proof {
                            assert(self@ =~= old(self)@.after_oversize(size as int, align as int));
                        }
                        Some(addr)
                    },
                    None => None,
                }
            },
        }
    }

    /// Frees the block at `addr` allocated with `(size, align)`: a class
    /// block goes back onto its class stack, an oversized block back to the
    /// fallback allocator.
    pub fn deallocate(&mut self, addr: u64, size: u64, align: u64)
        requires
            old(self)@.wf(),
            old(self)@.live.contains((addr as int, size as int, align as int)),
        ensures
            final(self)@.wf(),
            final(self)@ == (match spec_block_index(size as int, align as int) {
                Some(i) => old(self)@.after_push(i, addr as int, size as int, align as int),
                None => old(self)@.after_fallback_free(addr as int, size as int, align as int),
            }),
    {
        match find_block_index(size, align) {
            Some(index) => {
                let ghost i = index as int;
                let inner = Self::class_stack_mut(&mut self.list_heads, index);
                inner.push(addr);
                self.live = Ghost(self.live@.remove((addr as int, size as int, align as int)));
                proof {
                    let ghost cs = self@.classes;
                    let ghost os = old(self)@.classes.update(
                        i,
                        old(self)@.classes[i].push(addr as int),
                    );
                    assert(cs[i] =~= os[i]);
                    assert(cs =~= os);
                    assert(self@ =~= old(self)@.after_push(
                        i,
                        addr as int,
                        size as int,
                        align as int,
                    ));
                    lemma_fixed_push(old(self)@, i, addr as int, size as int, align as int);
                }
            },
            None => {
                proof {
                    lemma_fixed_fallback_free(old(self)@, addr as int, size as int, align as int);
                }
                self.fallback_allocator.deallocate(addr, size, align);
                self.live = Ghost(self.live@.remove((addr as int, size as int, align as int)));
                proof {
                    assert(self@ =~= old(self)@.after_fallback_free(
                        addr as int,
                        size as int,
                        align as int,
                    ));
                    lemma_fixed_fallback_free(old(self)@, addr as int, size as int, align as int);
                }
            },
        }
    }
}

} // verus!
