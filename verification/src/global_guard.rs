//! A value in the symmetric heap guarded by a lock word placed in front of it.
use vstd::prelude::*;
use core::marker::PhantomData;
use crate::config::Config;
use crate::comm::LOCK_SIZE;
use crate::global_pointer::GlobalPointer;

verus! {

/// A lock word at `ptr` in the segment of PE `rank`, followed by a `T`.
#[derive(Copy)]
pub struct GlobalGuard<T> {
    pub rank: usize,
    pub ptr: usize,
    pub refer_type: PhantomData<T>,
}

impl<T> Clone for GlobalGuard<T> {
    fn clone(&self) -> (g: Self)
        ensures
            g == *self,
    {
        GlobalGuard { rank: self.rank, ptr: self.ptr, refer_type: PhantomData }
    }
}

/// Access to the value of a guard whose lock is held. The lock is given back
/// when the value is dropped.
pub struct GlobalValue<T> {
    pub rank: usize,
    pub ptr: usize,
    pub refer_type: PhantomData<T>,
}

impl<T> GlobalGuard<T> {
    /// Allocates a lock word and room for a `T` behind it in this PE's
    /// segment. The guard is null when the segment has no room left. The lock
    /// word has to be set to `UNLOCKED` before the guard is shared.
    pub fn init(config: &mut Config) -> (g: GlobalGuard<T>)
        requires
            old(config).wf(),
        ensures
            old(config).allocated(*final(config), crate::global_pointer::elem_size::<T>() + LOCK_SIZE),
            g.rank == old(config).rank,
            g.ptr == crate::config::alloc_addr(old(config).heap_top() as int, old(config).seg_end(),
                crate::global_pointer::elem_size::<T>() + LOCK_SIZE),
    {
        vstd::layout::layout_for_type_is_valid::<T>();
        let sz = core::mem::size_of::<T>();
        let (ptr, _) = config.allocate(sz + LOCK_SIZE);
        GlobalGuard { rank: config.rank, ptr, refer_type: PhantomData }
    }

    /// The null guard.
    pub fn null() -> (g: GlobalGuard<T>)
        ensures
            g.rank == 0,
            g.ptr == 0,
    {
        GlobalGuard { rank: 0, ptr: 0, refer_type: PhantomData }
    }

    /// Whether the guard is null.
    pub fn is_null(&self) -> (b: bool)
        ensures
            b == (self.ptr == 0),
    {
        self.ptr == 0
    }

    /// Where the lock word of the guard lies.
    pub fn lock_ptr(&self) -> (p: GlobalPointer<i64>)
        ensures
            p.rank == self.rank,
            p.ptr == self.ptr,
    {
        GlobalPointer { rank: self.rank, ptr: self.ptr, refer_type: PhantomData }
    }

    /// The value of the guard, once its lock has been taken (by spinning on
    /// `comm::test_lock` over the word at `lock_ptr`).
    pub fn lock(&self) -> (v: GlobalValue<T>)
        ensures
            v.rank == self.rank,
            v.ptr == self.ptr,
    {
        GlobalValue { rank: self.rank, ptr: self.ptr, refer_type: PhantomData }
    }

    /// The outcome of a single attempt at the lock: the value when the attempt
    /// `acquired` it, else the error that the lock is taken.
    pub fn test_lock(&self, acquired: bool) -> (r: Result<GlobalValue<T>, &'static str>)
        ensures
            acquired ==> (r matches Ok(v) && v.rank == self.rank && v.ptr == self.ptr),
            !acquired ==> (r matches Err(e) && e@ == "Cannot get the lock"@),
    {
        if acquired {
            Ok(GlobalValue { rank: self.rank, ptr: self.ptr, refer_type: PhantomData })
        } else {
            Err("Cannot get the lock")
        }
    }
}

impl<T> GlobalValue<T> {
    /// The value guarded by the lock word at `ptr` on PE `rank`.
    pub fn init(rank: usize, ptr: usize) -> (v: GlobalValue<T>)
        ensures
            v.rank == rank,
            v.ptr == ptr,
    {
        GlobalValue { rank, ptr, refer_type: PhantomData }
    }

    /// Where the lock word lies; it is released through this pointer.
    pub fn lock_ptr(&self) -> (p: GlobalPointer<i64>)
        ensures
            p.rank == self.rank,
            p.ptr == self.ptr,
    {
        GlobalPointer { rank: self.rank, ptr: self.ptr, refer_type: PhantomData }
    }

    /// Where the value lies, `LOCK_SIZE` bytes past the lock word; it is read
    /// and written through this address.
    pub fn value_ptr(&self) -> (p: (usize, usize))
        requires
            self.ptr + LOCK_SIZE <= usize::MAX,
        ensures
            p == (self.rank, (self.ptr + LOCK_SIZE) as usize),
    {
        (self.rank, self.ptr + LOCK_SIZE)
    }
}

} // verus!
