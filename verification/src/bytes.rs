//! A record of one mirrored byte allocation: the base address and the byte
//! size that the platform backend handed out, the exact pair that must be
//! handed back to it on release.

use vstd::prelude::*;

verus! {

/// One mirrored region: `size` bytes starting at `addr`, with the two
/// halves aliasing the same physical memory.
pub struct Bytes {
    /// Base address of the region.
    addr: usize,
    /// Total byte size of the region (both mirrored halves).
    size: usize,
}

impl Bytes {
    /// The base address of the region.
    pub closed spec fn spec_addr(&self) -> usize {
        self.addr
    }

    /// The byte size of the region.
    pub closed spec fn spec_size(&self) -> usize {
        self.size
    }

    /// Records a region of `size` bytes at `addr`.
    pub fn new(addr: usize, size: usize) -> (r: Bytes)
        ensures
            r.spec_addr() == addr,
            r.spec_size() == size,
    {
        Bytes { addr, size }
    }

    /// The base address of the region.
    pub fn addr(&self) -> (r: usize)
        ensures
            r == self.spec_addr(),
    {
        self.addr
    }

    /// The byte size of the region.
    pub fn size(&self) -> (r: usize)
        ensures
            r == self.spec_size(),
    {
        self.size
    }
}

} // verus!
