//! Global pointers: an address in the symmetric heap together with the PE that
//! owns the memory it points at.
use vstd::prelude::*;
use core::marker::PhantomData;
use crate::config::Config;

verus! {

/// Element types that can be copied between PEs byte for byte.
pub trait Bclable: Clone + Copy {}

impl Bclable for i8 {}
impl Bclable for i16 {}
impl Bclable for i32 {}
impl Bclable for i64 {}
impl Bclable for isize {}
impl Bclable for u8 {}
impl Bclable for u16 {}
impl Bclable for u32 {}
impl Bclable for u64 {}
impl Bclable for usize {}
impl Bclable for char {}

/// The size in bytes of one `T`.
pub open spec fn elem_size<T>() -> int {
    vstd::layout::size_of::<T>() as int
}

/// A pointer to a `T` that lives in the symmetric heap of PE `rank`, at
/// address `ptr`. Address 0 is the null pointer.
#[derive(Copy)]
pub struct GlobalPointer<T: Bclable> {
    pub rank: usize,
    pub ptr: usize,
    pub refer_type: PhantomData<T>,
}

impl<T: Bclable> Clone for GlobalPointer<T> {
    fn clone(&self) -> (p: Self)
        ensures
            p == *self,
    {
        *self
    }
}

impl<T: Bclable> GlobalPointer<T> {
    /// The pointer is null.
    pub open spec fn spec_is_null(&self) -> bool {
        self.ptr == 0
    }

    /// The pointer `n` elements further on.
    pub open spec fn plus(&self, n: int) -> GlobalPointer<T> {
        GlobalPointer { rank: self.rank, ptr: (self.ptr + n * elem_size::<T>()) as usize, refer_type: PhantomData }
    }

    /// Allocates room for `size` elements of `T` in this PE's segment and
    /// points at it; the pointer is null when the segment has no room left.
    pub fn init(config: &mut Config, size: usize) -> (p: GlobalPointer<T>)
        requires
            old(config).wf(),
            size * elem_size::<T>() + 63 <= usize::MAX,
        ensures
            old(config).allocated(*final(config), size * elem_size::<T>()),
            p.rank == old(config).rank,
            p.ptr == crate::config::alloc_addr(old(config).heap_top() as int, old(config).seg_end(), size * elem_size::<T>()),
    {
        let sz = core::mem::size_of::<T>();
        let bytes = size * sz;
        let (ptr, _) = config.allocate(bytes);
        GlobalPointer { rank: config.rank, ptr, refer_type: PhantomData }
    }

    /// The null pointer.
    pub fn null() -> (p: GlobalPointer<T>)
        ensures
            p.rank == 0,
            p.ptr == 0,
    {
        GlobalPointer { rank: 0, ptr: 0, refer_type: PhantomData }
    }

    /// Whether the pointer is null.
    pub fn is_null(&self) -> (b: bool)
        ensures
            b == self.spec_is_null(),
    {
        self.ptr == 0
    }

    /// The pointer `n` elements further on, on the same PE. A negative `n` is
    /// refused: the address computation does not handle it.
    pub fn add(self, n: isize) -> (p: GlobalPointer<T>)
        requires
            n >= 0,
            self.ptr + n * elem_size::<T>() <= usize::MAX,
        ensures
            p == self.plus(n as int),
    {
        let sz = core::mem::size_of::<T>();
        let k = n as usize;
        assert(k * sz == n * elem_size::<T>());
        let d = k * sz;
        GlobalPointer { rank: self.rank, ptr: self.ptr + d, refer_type: PhantomData }
    }

    /// The pointer to element `idx` counted from this one: the address that the
    /// indexed remote get and put of element `idx` go to.
    pub fn idx_ptr(&self, idx: usize) -> (p: GlobalPointer<T>)
        requires
            self.ptr + idx * elem_size::<T>() <= usize::MAX,
        ensures
            p == self.plus(idx as int),
    {
        let sz = core::mem::size_of::<T>();
        let d = idx * sz;
        GlobalPointer { rank: self.rank, ptr: self.ptr + d, refer_type: PhantomData }
    }

    /// Moves the pointer `n` elements further on.
    pub fn add_assign(&mut self, n: isize)
        requires
            n >= 0,
            old(self).ptr + n * elem_size::<T>() <= usize::MAX,
        ensures
            *final(self) == old(self).plus(n as int),
    {
        let sz = core::mem::size_of::<T>();
        let k = n as usize;
        assert(k * sz == n * elem_size::<T>());
        let d = k * sz;
        self.ptr = self.ptr + d;
    }

    /// The pointer `n` elements back, on the same PE. A negative `n` is refused:
    /// the address computation does not handle it.
    pub fn sub(self, n: isize) -> (p: GlobalPointer<T>)
        requires
            n >= 0,
            self.ptr - n * elem_size::<T>() >= 0,
        ensures
            p == self.plus(-(n as int)),
    {
        let sz = core::mem::size_of::<T>();
        let k = n as usize;
        assert(k * sz == n * elem_size::<T>());
        let d = k * sz;
        assert(-(n as int) * elem_size::<T>() == -(n * elem_size::<T>())) by (nonlinear_arith);
        GlobalPointer { rank: self.rank, ptr: self.ptr - d, refer_type: PhantomData }
    }

    /// Moves the pointer `n` elements back.
    pub fn sub_assign(&mut self, n: isize)
        requires
            n >= 0,
            old(self).ptr - n * elem_size::<T>() >= 0,
        ensures
            *final(self) == old(self).plus(-(n as int)),
    {
        let sz = core::mem::size_of::<T>();
        let k = n as usize;
        assert(k * sz == n * elem_size::<T>());
        let d = k * sz;
        assert(-(n as int) * elem_size::<T>() == -(n * elem_size::<T>())) by (nonlinear_arith);
        self.ptr = self.ptr - d;
    }
}

/// Moving a pointer forward by `n` elements and back by `n` gives it back.
pub proof fn lemma_add_then_sub<T: Bclable>(p: GlobalPointer<T>, n: int)
    requires
        n >= 0,
        p.ptr + n * elem_size::<T>() <= usize::MAX,
    ensures
        p.plus(n).plus(-n) == p,
{
    assert(p.plus(n).ptr - n * elem_size::<T>() == p.ptr) by (nonlinear_arith)
        requires p.plus(n).ptr == p.ptr + n * elem_size::<T>();
    assert(-n * elem_size::<T>() == -(n * elem_size::<T>())) by (nonlinear_arith);
}

/// Moving a pointer by `a` and then by `b` elements is moving it by `a + b`.
pub proof fn lemma_add_add<T: Bclable>(p: GlobalPointer<T>, a: int, b: int)
    requires
        a >= 0,
        b >= 0,
        p.ptr + (a + b) * elem_size::<T>() <= usize::MAX,
    ensures
        p.plus(a).plus(b) == p.plus(a + b),
{
    assert((a + b) * elem_size::<T>() == a * elem_size::<T>() + b * elem_size::<T>()) by (nonlinear_arith);
    assert(0 <= b * elem_size::<T>()) by (nonlinear_arith) requires b >= 0, elem_size::<T>() >= 0;
    assert(0 <= a * elem_size::<T>()) by (nonlinear_arith) requires a >= 0, elem_size::<T>() >= 0;
}

impl Config {
    /// A pointer to the byte at `offset` in the symmetric segment of PE `rank`.
    pub fn new_ptr<T: Bclable>(&self, rank: usize, offset: usize) -> (p: GlobalPointer<T>)
        requires
            self.smem_base_ptr + offset <= usize::MAX,
        ensures
            p.rank == rank,
            p.ptr == self.smem_base_ptr + offset,
    {
        GlobalPointer { rank, ptr: self.smem_base_ptr + offset, refer_type: PhantomData }
    }
}

} // verus!
