//! The handle by which a caller names the bytes that an arena gave it.
use vstd::prelude::*;

verus! {

/// The mathematical model of a region: `len` bytes at `offset` in the bucket
/// numbered `bucket`, the first of them at address `addr`.
pub struct RegionView {
    pub bucket: nat,
    pub offset: nat,
    pub len: nat,
    pub addr: nat,
}

impl RegionView {
    /// Offset of the first byte behind the region.
    pub open spec fn end(self) -> nat {
        self.offset + self.len
    }

    /// Whether the two regions have no byte in common.
    pub open spec fn disjoint(self, other: RegionView) -> bool {
        ||| self.bucket != other.bucket
        ||| self.end() <= other.offset
        ||| other.end() <= self.offset
    }
}

/// A byte region handed out by an arena. Only an arena makes one.
#[derive(Debug, Clone, Copy, PartialEq, Eq)]
pub struct Region {
    bucket: usize,
    offset: usize,
    len: usize,
    addr: usize,
}

impl View for Region {
    type V = RegionView;

    closed spec fn view(&self) -> RegionView {
        RegionView {
            bucket: self.bucket as nat,
            offset: self.offset as nat,
            len: self.len as nat,
            addr: self.addr as nat,
        }
    }
}

impl Region {
    /// The region with the given parts.
    pub(crate) fn new(bucket: usize, offset: usize, len: usize, addr: usize) -> (region: Region)
        ensures
            region@ == (RegionView {
                bucket: bucket as nat,
                offset: offset as nat,
                len: len as nat,
                addr: addr as nat,
            }),
    {
        Region { bucket, offset, len, addr }
    }

    /// Number of the bucket that the region lies in.
    pub fn bucket(&self) -> (n: usize)
        ensures
            n == self@.bucket,
    {
        self.bucket
    }

    /// Offset of the first byte in its bucket.
    pub fn offset(&self) -> (n: usize)
        ensures
            n == self@.offset,
    {
        self.offset
    }

    /// Number of bytes.
    pub fn len(&self) -> (n: usize)
        ensures
            n == self@.len,
    {
        self.len
    }

    /// Address of the first byte.
    pub fn addr(&self) -> (n: usize)
        ensures
            n == self@.addr,
    {
        self.addr
    }
}

} // verus!
