//! The handle that an allocation returns.

use crate::model::Grant;
use core::marker::PhantomData;
use vstd::prelude::*;

verus! {

/// A small pointer into the arena that carries what the allocator needs to
/// take the allocation back: the padding in front of the usable bytes and
/// the bytes reserved in all. The allocator keeps no record of its own.
pub struct FreeListPtr<T> {
    ptr: usize,
    pad: u32,
    size: u32,
    kind: PhantomData<T>,
}

impl<T> View for FreeListPtr<T> {
    type V = Grant;

    closed spec fn view(&self) -> Grant {
        Grant { addr: self.ptr as int, pad: self.pad as int, size: self.size as int }
    }
}

impl<T> Clone for FreeListPtr<T> {
    fn clone(&self) -> (copy: Self)
        ensures
            copy@ == self@,
    {
        FreeListPtr { ptr: self.ptr, pad: self.pad, size: self.size, kind: PhantomData }
    }
}

impl<T> Copy for FreeListPtr<T> {

}

impl<T> FreeListPtr<T> {
    /// A handle for the `size` bytes reserved from `ptr - pad` on, of which
    /// those from `ptr` on are usable.
    pub(crate) fn new(ptr: usize, pad: u32, size: u32) -> (handle: Self)
        ensures
            handle@ == (Grant { addr: ptr as int, pad: pad as int, size: size as int }),
    {
        FreeListPtr { ptr, pad, size, kind: PhantomData }
    }

    /// The same handle, taken as one to values of another type.
    #[must_use]
    pub fn cast<B>(&self) -> (handle: FreeListPtr<B>)
        ensures
            handle@ == self@,
    {
        FreeListPtr { ptr: self.ptr, pad: self.pad, size: self.size, kind: PhantomData }
    }

    /// The address of the first usable byte.
    #[must_use]
    pub fn as_ptr(&self) -> (addr: usize)
        ensures
            addr == self@.addr,
    {
        self.ptr
    }

    /// The padding bytes in front of the usable ones.
    #[must_use]
    pub fn padding(&self) -> (pad: u32)
        ensures
            pad == self@.pad,
    {
        self.pad
    }

    /// The bytes reserved in all, padding included.
    #[must_use]
    pub fn size(&self) -> (size: u32)
        ensures
            size == self@.size,
    {
        self.size
    }
}

} // verus!
