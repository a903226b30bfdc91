//! Shared ground for the allocator strategies: the heap's fixed virtual
//! range, upward alignment, and the vocabulary of (address, size) blocks
//! that the allocator specifications are stated in.

use vstd::arithmetic::div_mod::{
    lemma_fundamental_div_mod, lemma_mod_division_less_than_divisor, lemma_mod_multiples_basic,
};
use vstd::arithmetic::power::{lemma_pow_adds, lemma_pow_positive, lemma_pow_strictly_increases, pow};
use vstd::arithmetic::power2::{is_pow2, is_pow2_equiv};
use vstd::prelude::*;
use vstd::relations::injective_on;
use vstd::set_lib::{lemma_int_range, lemma_len_subset, lemma_map_size, set_int_range};

verus! {

/// Start of the kernel heap's fixed virtual address range.
pub const HEAP_START: u64 = 0x4444_4444_0000;

/// Size of the kernel heap in bytes (100 KiB).
pub const HEAP_SIZE: u64 = 100 * 1024;

/// Size in bytes of one page of the heap range.
pub const PAGE_SIZE: u64 = 4096;

/// Smallest multiple of `align` that is at least `addr`.
pub open spec fn spec_align_up(addr: int, align: int) -> int
    recommends
        align >= 1,
{
    if addr % align == 0 {
        addr
    } else {
        addr + (align - addr % align)
    }
}

/// A power of two is positive.
pub proof fn lemma_pow2_pos(n: int)
    requires
        is_pow2(n),
    ensures
        n >= 1,
{
    reveal(is_pow2);
}

/// `spec_align_up` returns the smallest aligned value not below `addr`.
pub proof fn lemma_align_up(addr: int, align: int)
    requires
        addr >= 0,
        align >= 1,
    ensures
        spec_align_up(addr, align) % align == 0,
        addr <= spec_align_up(addr, align) < addr + align,
{
    let rem = addr % align;
    lemma_mod_division_less_than_divisor(addr, align);
    if rem != 0 {
        lemma_fundamental_div_mod(addr, align);
        let q = addr / align;
        assert((q + 1) * align == q * align + align) by (nonlinear_arith);
        assert(spec_align_up(addr, align) == (q + 1) * align);
        lemma_mod_multiples_basic(q + 1, align);
    }
}

/// A smaller power of two divides a larger one.
pub proof fn lemma_pow2_divides(a: int, b: int)
    requires
        is_pow2(a),
        is_pow2(b),
        a <= b,
    ensures
        b % a == 0,
{
    broadcast use is_pow2_equiv;

    let i = choose|i: nat| pow(2, i) == a;
    let j = choose|j: nat| pow(2, j) == b;
    lemma_pow_positive(2, i);
    lemma_pow_positive(2, j);
    if j < i {
        lemma_pow_strictly_increases(2, j, i);
    }
    lemma_pow_adds(2, (j - i) as nat, i);
    lemma_pow_positive(2, (j - i) as nat);
    assert(b == pow(2, (j - i) as nat) * a);
    lemma_mod_multiples_basic(pow(2, (j - i) as nat) as int, a);
}

/// Divisibility is transitive: a multiple of `b` is a multiple of every
/// divisor `a` of `b`.
pub proof fn lemma_divides_trans(x: int, a: int, b: int)
    requires
        a >= 1,
        b >= 1,
        x % b == 0,
        b % a == 0,
    ensures
        x % a == 0,
{
    lemma_fundamental_div_mod(x, b);
    lemma_fundamental_div_mod(b, a);
    let q1 = x / b;
    let q2 = b / a;
    assert(x == (q2 * q1) * a) by (nonlinear_arith)
        requires
            x == b * q1,
            b == a * q2,
    {}
    lemma_mod_multiples_basic(q2 * q1, a);
}

/// The byte ranges `[a.0, a.0 + a.1)` and `[b.0, b.0 + b.1)` do not overlap.
pub open spec fn blocks_disjoint(a: (int, int), b: (int, int)) -> bool {
    a.0 + a.1 <= b.0 || b.0 + b.1 <= a.0
}

/// Every pair of distinct blocks in `s` is disjoint.
pub open spec fn set_pairwise_disjoint(s: Set<(int, int)>) -> bool {
    forall|a: (int, int), b: (int, int)|
        s.contains(a) && s.contains(b) && a != b ==> #[trigger] blocks_disjoint(a, b)
}

/// The block lies entirely inside `[lo, hi)`.
pub open spec fn block_in_range(b: (int, int), lo: int, hi: int) -> bool {
    lo <= b.0 && b.0 + b.1 <= hi
}

/// Pairwise-disjoint non-empty blocks inside `[lo, hi)` number at most `hi - lo`.
pub proof fn lemma_block_count(s: Set<(int, int)>, lo: int, hi: int)
    requires
        s.finite(),
        lo <= hi,
        forall|b: (int, int)| s.contains(b) ==> #[trigger] block_in_range(b, lo, hi) && b.1 >= 1,
        set_pairwise_disjoint(s),
    ensures
        s.len() <= hi - lo,
{
    let f = |b: (int, int)| b.0;
    let starts = s.map(f);
    assert forall|x: (int, int), y: (int, int)|
        #![trigger s.contains(x), s.contains(y)]
        s.contains(x) && s.contains(y) && f(x) == f(y) implies x == y by {
        if x != y {
            assert(blocks_disjoint(x, y));
            assert(block_in_range(x, lo, hi));
            assert(block_in_range(y, lo, hi));
        }
    }
    assert(injective_on(f, s));
    lemma_map_size(s, starts, f);
    assert(starts.subset_of(set_int_range(lo, hi))) by {
        assert forall|v: int| starts.contains(v) implies set_int_range(lo, hi).contains(v) by {
            let b = choose|b: (int, int)| s.contains(b) && f(b) == v;
            assert(block_in_range(b, lo, hi));
        }
    }
    lemma_int_range(lo, hi);
    lemma_len_subset(starts, set_int_range(lo, hi));
}

/// Aligns `addr` upwards to `align`, a power of two: the smallest address of
/// that alignment not below `addr`.
pub fn align_up(addr: u64, align: u64) -> (r: u64)
    requires
        is_pow2(align as int),
        addr + align <= u64::MAX as int + 1,
    ensures
        r == spec_align_up(addr as int, align as int),
        r as int % align as int == 0,
        addr <= r < addr + align,
{
    proof {
        lemma_pow2_pos(align as int);
        lemma_align_up(addr as int, align as int);
    }
    let rem = addr % align;
    if rem == 0 {
        addr
    } else {
        addr + (align - rem)
    }
}

/// The addresses of the pages backing the heap range, in ascending order.
/// A collaborator maps each of them (present and writable) before any
/// allocator takes the range over.
pub fn heap_page_addresses() -> (r: Vec<u64>)
    ensures
        r@.len() == HEAP_SIZE as int / PAGE_SIZE as int,
        forall|i: int| 0 <= i < r@.len() ==> r@[i] == HEAP_START + i * PAGE_SIZE,
{
    let mut pages: Vec<u64> = Vec::new();
    let mut addr: u64 = HEAP_START;
    let count: u64 = HEAP_SIZE / PAGE_SIZE;
    let mut i: u64 = 0;
    while i < count
        invariant
            0 <= i <= count,
            count == HEAP_SIZE as int / PAGE_SIZE as int,
            addr == HEAP_START + i * PAGE_SIZE,
            pages@.len() == i,
            forall|j: int| 0 <= j < i ==> pages@[j] == HEAP_START + j * PAGE_SIZE,
        decreases count - i,
    {
        pages.push(addr);
        addr = addr + PAGE_SIZE;
        i = i + 1;
    }
    pages
}

/// An allocator that refuses every request; deallocation is unreachable
/// because nothing is ever handed out.
pub struct DummyAlloc;

impl DummyAlloc {
    /// Always fails.
    pub fn allocate(&self, _size: u64, _align: u64) -> (r: Option<u64>)
        ensures
            r is None,
    {
        None
    }
}

} // verus!
