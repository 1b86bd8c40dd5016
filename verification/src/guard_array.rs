//! Vectors of guarded values, and a guarded array spread over all PEs.
use vstd::prelude::*;
use core::marker::PhantomData;
use crate::config::{Config, SMALLEST_MEM_UNIT, aligned_size};
use crate::comm::LOCK_SIZE;
use crate::global_guard::GlobalValue;
use crate::global_pointer::{GlobalPointer, elem_size};

verus! {

/// Bytes one element of a `GlobalGuardVec<T>` takes: the value rounded up to
/// `SMALLEST_MEM_UNIT` and the lock word.
pub open spec fn unit_bytes<T>() -> int {
    aligned_size(elem_size::<T>()) + LOCK_SIZE
}

/// `size` guarded values of type `T`, one after the other from `ptr` in the
/// segment of PE `rank`; each is a lock word followed by the value.
pub struct GlobalGuardVec<T> {
    pub rank: usize,
    pub ptr: usize,
    pub size: usize,
    pub refer_type: PhantomData<T>,
}

impl<T> Clone for GlobalGuardVec<T> {
    fn clone(&self) -> (g: Self)
        ensures
            g == *self,
    {
        GlobalGuardVec { rank: self.rank, ptr: self.ptr, size: self.size, refer_type: PhantomData }
    }
}

impl<T> GlobalGuardVec<T> {
    /// The elements of the vector fit in the address space.
    pub open spec fn wf(&self) -> bool {
        self.ptr + self.size * unit_bytes::<T>() <= usize::MAX
    }

    /// Address of the lock word of element `idx`.
    pub open spec fn element_addr(&self, idx: int) -> int {
        self.ptr + idx * unit_bytes::<T>()
    }

    /// Bytes one element takes.
    pub fn unit_size() -> (u: usize)
        ensures
            u == unit_bytes::<T>(),
    {
        vstd::layout::layout_for_type_is_valid::<T>();
        let sz = core::mem::size_of::<T>();
        let type_size = (sz + (SMALLEST_MEM_UNIT - 1)) / SMALLEST_MEM_UNIT * SMALLEST_MEM_UNIT;
        type_size + LOCK_SIZE
    }

    /// Allocates `size` guarded values in this PE's segment. The vector is
    /// null (and its size still `size`) when the segment has no room left.
    /// Each lock word has to be set to `UNLOCKED` before the vector is shared.
    pub fn init(config: &mut Config, size: usize) -> (g: GlobalGuardVec<T>)
        requires
            old(config).wf(),
            size * unit_bytes::<T>() + SMALLEST_MEM_UNIT <= usize::MAX,
        ensures
            old(config).allocated(*final(config), size * unit_bytes::<T>()),
            g.rank == old(config).rank,
            g.size == size,
            g.wf(),
            g.ptr == crate::config::alloc_addr(old(config).heap_top() as int, old(config).seg_end(), size * unit_bytes::<T>()),
    {
        let unit = Self::unit_size();
        let (ptr, _) = config.allocate(size * unit);
        proof {
            assert(size * unit_bytes::<T>() <= aligned_size(size * unit_bytes::<T>()));
        }
        GlobalGuardVec { rank: config.rank, ptr, size, refer_type: PhantomData }
    }

    /// The null vector, of size 0.
    pub fn null() -> (g: GlobalGuardVec<T>)
        ensures
            g.rank == 0,
            g.ptr == 0,
            g.size == 0,
            g.wf(),
    {
        GlobalGuardVec { rank: 0, ptr: 0, size: 0, refer_type: PhantomData }
    }

    /// Whether the vector is null.
    pub fn is_null(&self) -> (b: bool)
        ensures
            b == (self.ptr == 0),
    {
        self.ptr == 0
    }

    /// Number of elements.
    pub fn len(&self) -> (n: usize)
        ensures
            n == self.size,
    {
        self.size
    }

    /// The lock word of element `idx`: where its lock is taken, then its value
    /// accessed. An index past the end is refused.
    pub fn lock(&self, idx: usize) -> (v: GlobalValue<T>)
        requires
            self.wf(),
            idx < self.size,
        ensures
            v.rank == self.rank,
            v.ptr == self.element_addr(idx as int),
    {
        let unit = Self::unit_size();
        proof {
            assert(idx * unit_bytes::<T>() <= self.size * unit_bytes::<T>()) by (nonlinear_arith)
                requires idx < self.size, unit_bytes::<T>() >= 0;
        }
        let offset = idx * unit;
        GlobalValue::init(self.rank, self.ptr + offset)
    }

    /// The lock word of element `idx`, as a pointer.
    pub fn lock_ptr(&self, idx: usize) -> (p: GlobalPointer<i64>)
        requires
            self.wf(),
            idx < self.size,
        ensures
            p.rank == self.rank,
            p.ptr == self.element_addr(idx as int),
    {
        let v = self.lock(idx);
        v.lock_ptr()
    }
}

/// The elements of a guarded vector do not overlap: each spans a lock word and
/// a value, the next one starts after it, and all lie inside the vector. When
/// the vector starts on a `LOCK_SIZE` boundary, so does every lock word.
pub proof fn lemma_guard_vec_layout<T>(g: GlobalGuardVec<T>, i: int, j: int)
    requires
        g.wf(),
        0 <= i < j < g.size,
    ensures
        g.element_addr(i) + LOCK_SIZE + elem_size::<T>() <= g.element_addr(j),
        g.element_addr(j) + unit_bytes::<T>() <= g.ptr + g.size * unit_bytes::<T>(),
        (g.ptr as int) % (LOCK_SIZE as int) == 0 ==> g.element_addr(i) % (LOCK_SIZE as int) == 0,
{
    let u = unit_bytes::<T>();
    let e = elem_size::<T>();
    assert(aligned_size(e) >= e);
    assert(aligned_size(e) % 64 == 0) by (nonlinear_arith)
        requires aligned_size(e) == ((e + 63) / 64) * 64;
    assert(i * u + u <= j * u) by (nonlinear_arith) requires i < j, u >= 0;
    assert(j * u + u <= g.size * u) by (nonlinear_arith) requires j < g.size, u >= 0;
    let k = u / 8;
    assert(u == 8 * k);
    assert(i * u == 8 * (i * k)) by (nonlinear_arith) requires u == 8 * k;
    vstd::arithmetic::div_mod::lemma_mod_multiples_basic(i * k, 8);
}

/// A guarded array of elements spread in equal blocks over the PEs: block
/// `r` lives in the segment of PE `r`.
pub struct GuardArray<T> {
    pub ptrs: Vec<GlobalGuardVec<T>>,
}

impl<T> GuardArray<T> {
    /// Every PE's block is known and has the same number of elements.
    pub open spec fn wf(&self) -> bool {
        &&& self.ptrs@.len() > 0
        &&& self.ptrs@[0].size > 0
        &&& forall|r: int| 0 <= r < self.ptrs@.len() ==> (#[trigger] self.ptrs@[r]).wf()
            && self.ptrs@[r].size == self.ptrs@[0].size
    }

    /// Creates this PE's block of an array of `size` elements: each PE holds
    /// `ceil(size / rankn)` of them. The blocks of the other PEs are null until
    /// they are broadcast into `ptrs`.
    pub fn init(config: &mut Config, size: usize) -> (a: GuardArray<T>)
        requires
            old(config).wf(),
            size + old(config).rankn <= usize::MAX,
            ((size + old(config).rankn - 1) as int / old(config).rankn as int) * unit_bytes::<T>() + SMALLEST_MEM_UNIT <= usize::MAX,
        ensures
            old(config).allocated(*final(config),
                ((size + old(config).rankn - 1) as int / old(config).rankn as int) * unit_bytes::<T>()),
            a.ptrs@.len() == old(config).rankn,
            a.ptrs@[old(config).rank as int].size == (size + old(config).rankn - 1) as int / old(config).rankn as int,
            a.ptrs@[old(config).rank as int].rank == old(config).rank,
            a.ptrs@[old(config).rank as int].wf(),
            a.ptrs@[old(config).rank as int].ptr == crate::config::alloc_addr(old(config).heap_top() as int,
                old(config).seg_end(), ((size + old(config).rankn - 1) as int / old(config).rankn as int) * unit_bytes::<T>()),
            forall|r: int| 0 <= r < a.ptrs@.len() && r != old(config).rank ==> (#[trigger] a.ptrs@[r]).ptr == 0
                && a.ptrs@[r].size == 0,
    {
        let rankn = config.rankn;
        let local_size = (size + rankn - 1) / rankn;
        let mut ptrs: Vec<GlobalGuardVec<T>> = Vec::new();
        let mut i: usize = 0;
        while i < rankn
            invariant
                i <= rankn,
                ptrs@.len() == i,
                forall|r: int| 0 <= r < i ==> (#[trigger] ptrs@[r]).ptr == 0 && ptrs@[r].size == 0,
            decreases rankn - i,
        {
            ptrs.push(GlobalGuardVec::null());
            i = i + 1;
        }
        let mine = GlobalGuardVec::init(config, local_size);
        let rank = config.rank;
        ptrs.set(rank, mine);
        GuardArray { ptrs }
    }

    /// Elements per PE.
    pub fn local_size(&self) -> (n: usize)
        requires
            self.ptrs@.len() > 0,
        ensures
            n == self.ptrs@[0].size,
    {
        self.ptrs[0].len()
    }

    /// The guarded element `idx`: element `idx % local_size` of the block of PE
    /// `idx / local_size`. An index whose PE does not exist is refused.
    pub fn lock(&self, idx: usize) -> (v: GlobalValue<T>)
        requires
            self.wf(),
            (idx as int) / (self.ptrs@[0].size as int) < self.ptrs@.len(),
        ensures
            v.rank == self.ptrs@[(idx as int) / (self.ptrs@[0].size as int)].rank,
            v.ptr == self.ptrs@[(idx as int) / (self.ptrs@[0].size as int)].element_addr((idx as int) % (self.ptrs@[0].size as int)),
    {
        let local_size = self.local_size();
        let rank = idx / local_size;
        let local_idx = idx % local_size;
        assert(self.ptrs@[rank as int].wf());
        self.ptrs[rank].lock(local_idx)
    }
}

} // verus!
