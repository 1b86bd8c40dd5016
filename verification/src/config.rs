//! The per-PE configuration and the bump allocator of the symmetric heap.
use vstd::prelude::*;

verus! {

/// Every allocation is rounded up to a multiple of this many bytes.
pub const SMALLEST_MEM_UNIT: usize = 64;

/// Bytes in one "m" of `Config::init`'s segment size argument.
pub const SEGMENT_UNIT_BYTES: usize = 1048576;

/// `size` rounded up to a multiple of `SMALLEST_MEM_UNIT`.
pub open spec fn aligned_size(size: int) -> int {
    ((size + SMALLEST_MEM_UNIT as int - 1) / SMALLEST_MEM_UNIT as int) * SMALLEST_MEM_UNIT as int
}

/// The address a request for `size` bytes gets from a heap whose top is at
/// `heap` and whose segment ends at `end`: the top, or 0 when the rounded-up
/// request does not fit.
pub open spec fn alloc_addr(heap: int, end: int, size: int) -> int {
    if aligned_size(size) > end - heap { 0 } else { heap }
}

/// The top of that heap after the request.
pub open spec fn heap_after(heap: int, end: int, size: int) -> int {
    if aligned_size(size) > end - heap { heap } else { heap + aligned_size(size) }
}

/// The state of one PE: which PE it is, how many there are, and where its
/// symmetric segment lies. Addresses are plain integers; the segment starts at
/// `smem_base_ptr` on every PE, which is what makes the heap symmetric.
pub struct Config {
    /// Size of the symmetric segment in bytes.
    pub shared_segment_size: usize,
    /// Address of the first byte of the symmetric segment.
    pub smem_base_ptr: usize,
    /// This PE's number.
    pub rank: usize,
    /// How many PEs there are.
    pub rankn: usize,
    /// The first free address of the segment (the top of the bump heap).
    pub smem_heap: usize,
}

impl Config {
    /// The first free address of the segment: allocation takes memory from here.
    pub open spec fn heap_top(&self) -> usize {
        self.smem_heap
    }

    /// The configuration describes a real segment and an allocator state inside it.
    pub open spec fn wf(&self) -> bool {
        &&& self.smem_base_ptr > 0
        &&& self.smem_base_ptr + self.shared_segment_size <= usize::MAX
        &&& self.smem_base_ptr <= self.heap_top()
        &&& self.heap_top() <= self.smem_base_ptr + self.shared_segment_size
        &&& (self.heap_top() - self.smem_base_ptr) % (SMALLEST_MEM_UNIT as int) == 0
        &&& self.rank < self.rankn
    }

    /// The address one past the end of the segment.
    pub open spec fn seg_end(&self) -> int {
        self.smem_base_ptr + self.shared_segment_size
    }

    /// `next` is this configuration after an allocation request of `size`
    /// bytes: same PE and segment, heap top moved as the request moves it.
    pub open spec fn allocated(&self, next: Config, size: int) -> bool {
        &&& next.wf()
        &&& next.shared_segment_size == self.shared_segment_size
        &&& next.smem_base_ptr == self.smem_base_ptr
        &&& next.rank == self.rank
        &&& next.rankn == self.rankn
        &&& next.heap_top() == heap_after(self.heap_top() as int, self.seg_end(), size)
    }

    /// Bytes still free in the segment.
    pub open spec fn free_bytes(&self) -> int {
        self.smem_base_ptr + self.shared_segment_size - self.heap_top()
    }

    /// Builds the configuration of PE `rank` of `rankn`, whose symmetric
    /// segment of `shared_segment_size_m` mebibytes starts at `smem_base_ptr`.
    /// The heap starts empty at the base of the segment.
    pub fn init(shared_segment_size_m: usize, rank: usize, rankn: usize, smem_base_ptr: usize) -> (c: Config)
        requires
            shared_segment_size_m * SEGMENT_UNIT_BYTES <= usize::MAX,
            smem_base_ptr > 0,
            smem_base_ptr + shared_segment_size_m * SEGMENT_UNIT_BYTES <= usize::MAX,
            rank < rankn,
        ensures
            c.wf(),
            c.shared_segment_size == shared_segment_size_m * SEGMENT_UNIT_BYTES,
            c.smem_base_ptr == smem_base_ptr,
            c.rank == rank,
            c.rankn == rankn,
            c.heap_top() == smem_base_ptr,
    {
        let shared_segment_size = shared_segment_size_m * SEGMENT_UNIT_BYTES;
        Config { shared_segment_size, smem_base_ptr, rank, rankn, smem_heap: smem_base_ptr }
    }

    /// Reserves `size` bytes, rounded up to `SMALLEST_MEM_UNIT`, from the top of
    /// the heap. Returns the address of the block and its offset from the base
    /// of the segment, or `(0, 0)` when the segment has no room left, in which
    /// case nothing changes.
    pub fn allocate(&mut self, size: usize) -> (r: (usize, usize))
        requires
            old(self).wf(),
            size + SMALLEST_MEM_UNIT - 1 <= usize::MAX,
        ensures
            old(self).allocated(*final(self), size as int),
            r.0 == alloc_addr(old(self).heap_top() as int, old(self).seg_end(), size as int),
            aligned_size(size as int) > old(self).free_bytes() ==> {
                &&& r == (0usize, 0usize)
                &&& final(self).heap_top() == old(self).heap_top()
            },
            aligned_size(size as int) <= old(self).free_bytes() ==> {
                &&& r.0 == old(self).heap_top()
                &&& r.1 == old(self).heap_top() - old(self).smem_base_ptr
                &&& final(self).heap_top() == old(self).heap_top() + aligned_size(size as int)
            },
    {
        let aligned = (size + (SMALLEST_MEM_UNIT - 1)) / SMALLEST_MEM_UNIT * SMALLEST_MEM_UNIT;
        assert(aligned as int == aligned_size(size as int));
        let room = self.smem_base_ptr + self.shared_segment_size - self.smem_heap;
        if aligned > room {
            return (0, 0);
        }
        let allocd = self.smem_heap;
        self.smem_heap = self.smem_heap + aligned;
        assert((self.smem_heap - self.smem_base_ptr) % 64 == 0) by {
            assert(aligned % 64 == 0) by (nonlinear_arith)
                requires aligned == (size + 63) / 64 * 64;
        }
        (allocd, allocd - self.smem_base_ptr)
    }

    /// Frees nothing: the bump allocator never takes memory back.
    pub fn free<T>(&mut self, p: T)
        ensures
            *final(self) == *old(self),
    {
    }
}

/// Rounding up to `SMALLEST_MEM_UNIT` gives a multiple of it, at least the
/// request and less than one unit more.
pub proof fn lemma_aligned_size(size: int)
    requires
        size >= 0,
    ensures
        size <= aligned_size(size) < size + SMALLEST_MEM_UNIT,
        aligned_size(size) % (SMALLEST_MEM_UNIT as int) == 0,
{
    assert(((size + 63) / 64) * 64 <= size + 63) by (nonlinear_arith);
    assert(((size + 63) / 64) * 64 > size - 1) by (nonlinear_arith);
    assert((((size + 63) / 64) * 64) % 64 == 0) by (nonlinear_arith);
}

/// Allocations never overlap: when a request of `s1` bytes and then one of
/// `s2` bytes both succeed, the first block, `[a1, a1 + s1)`, ends before the
/// second, `[a2, a2 + s2)`, starts, and both lie inside the segment. A
/// refused request changes nothing, so any sequence of allocations hands out
/// disjoint blocks.
pub proof fn lemma_allocations_disjoint(c0: Config, c1: Config, c2: Config, s1: int, s2: int)
    requires
        c0.wf(),
        s1 >= 0,
        s2 >= 0,
        c0.allocated(c1, s1),
        c1.allocated(c2, s2),
        alloc_addr(c0.heap_top() as int, c0.seg_end(), s1) != 0,
        alloc_addr(c1.heap_top() as int, c1.seg_end(), s2) != 0,
    ensures
        ({
            let a1 = alloc_addr(c0.heap_top() as int, c0.seg_end(), s1);
            let a2 = alloc_addr(c1.heap_top() as int, c1.seg_end(), s2);
            &&& c0.smem_base_ptr <= a1
            &&& a1 + s1 <= a2
            &&& a2 + s2 <= c0.seg_end()
        }),
{
    lemma_aligned_size(s1);
    lemma_aligned_size(s2);
}


/// Request `k` of `sizes` took configuration `cs[k]` to `cs[k + 1]`.
pub open spec fn alloc_step(cs: Seq<Config>, sizes: Seq<int>, k: int) -> bool {
    sizes[k] >= 0 && cs[k].allocated(cs[k + 1], sizes[k])
}

proof fn lemma_heap_grows(cs: Seq<Config>, sizes: Seq<int>, i: int, j: int)
    requires
        cs.len() == sizes.len() + 1,
        forall|k: int| 0 <= k < sizes.len() ==> #[trigger] alloc_step(cs, sizes, k),
        0 <= i <= j < cs.len(),
    ensures
        cs[i].heap_top() <= cs[j].heap_top(),
        cs[j].seg_end() == cs[i].seg_end(),
        cs[j].smem_base_ptr == cs[i].smem_base_ptr,
    decreases j - i,
{
    if i < j {
        lemma_heap_grows(cs, sizes, i, j - 1);
        assert(alloc_step(cs, sizes, j - 1));
        lemma_aligned_size(sizes[j - 1]);
    }
}

/// Any two allocations are disjoint: in a run of allocation requests of
/// `sizes[0]`, `sizes[1]`, ... bytes, configuration `cs[k + 1]` following
/// request `k` from `cs[k]`, the blocks of any two requests `i < j` that
/// succeed do not overlap, the earlier one lying below the later one, and
/// both lie inside the segment.
pub proof fn lemma_all_allocations_disjoint(cs: Seq<Config>, sizes: Seq<int>, i: int, j: int)
    requires
        cs.len() == sizes.len() + 1,
        cs[0].wf(),
        forall|k: int| 0 <= k < sizes.len() ==> #[trigger] alloc_step(cs, sizes, k),
        0 <= i < j < sizes.len(),
        alloc_addr(cs[i].heap_top() as int, cs[i].seg_end(), sizes[i]) != 0,
        alloc_addr(cs[j].heap_top() as int, cs[j].seg_end(), sizes[j]) != 0,
    ensures
        ({
            let ai = alloc_addr(cs[i].heap_top() as int, cs[i].seg_end(), sizes[i]);
            let aj = alloc_addr(cs[j].heap_top() as int, cs[j].seg_end(), sizes[j]);
            &&& cs[0].smem_base_ptr <= ai
            &&& ai + sizes[i] <= aj
            &&& aj + sizes[j] <= cs[0].seg_end()
        }),
{
    lemma_heap_grows(cs, sizes, 0, i);
    lemma_heap_grows(cs, sizes, i + 1, j);
    lemma_heap_grows(cs, sizes, 0, j);
    assert(alloc_step(cs, sizes, i));
    assert(alloc_step(cs, sizes, j));
    lemma_aligned_size(sizes[i]);
    lemma_aligned_size(sizes[j]);
    if i > 0 {
        assert(alloc_step(cs, sizes, i - 1));
    }
    assert(alloc_step(cs, sizes, j - 1));
}

} // verus!
