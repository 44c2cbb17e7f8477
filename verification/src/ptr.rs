//! A non-null address handle.
//!
//! The allocator hands out and receives plain heap addresses (byte offsets
//! into the mapped region). `Pointer` wraps such an address as a typed,
//! provably non-null handle; it carries no allocation semantics of its own.
//! A `Pointer<u8>` returned by the heap conceptually owns the block it names;
//! a `Pointer` held inside a metadata structure merely borrows.

use vstd::prelude::*;

verus! {

/// A non-null typed address. The address is a byte offset into the heap
/// region, so offset `0` (the region header) never names an allocation and
/// serves as the null value that this type excludes.
#[derive(PartialEq, Eq, Structural, Debug)]
pub struct Pointer<T> {
    addr: usize,
    _marker: core::marker::PhantomData<T>,
}

impl<T> Pointer<T> {
    /// The address this handle names.
    pub closed spec fn addr_spec(&self) -> usize {
        self.addr
    }

    /// A handle is well formed when it is non-null.
    pub open spec fn wf(&self) -> bool {
        self.addr_spec() != 0
    }

    /// Wrap a raw address; `None` exactly when the address is null.
    pub fn from_addr(addr: usize) -> (r: Option<Pointer<T>>)
        ensures
            addr != 0 ==> (r matches Some(p) && p.addr_spec() == addr && p.wf()),
            addr == 0 ==> r is None,
    {
        if addr == 0 {
            None
        } else {
            Some(Pointer { addr, _marker: core::marker::PhantomData })
        }
    }

    /// The wrapped address.
    pub fn addr(&self) -> (r: usize)
        ensures
            r == self.addr_spec(),
    {
        self.addr
    }
}

} // verus!
