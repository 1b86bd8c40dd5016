//! A contiguous run of elements in one PE's segment.
use vstd::prelude::*;
use crate::global_pointer::{Bclable, GlobalPointer};

verus! {

/// `size` elements of `T` from `ptr` on.
pub struct Slice<T: Bclable> {
    pub size: usize,
    pub ptr: GlobalPointer<T>,
}

} // verus!
