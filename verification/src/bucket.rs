//! A bucket: one fixed-capacity byte region with a cursor that only moves
//! forwards.
use vstd::prelude::*;
use vstd::layout::align_of;
use vstd::layout::size_of;
use crate::layout::align_up;
use crate::layout::is_aligned;
use crate::layout::lemma_align_up_is_least;
use crate::layout::next_aligned;

verus! {

/// A request does not fit into what is left of a bucket.
#[derive(Debug, Clone, Copy, PartialEq, Eq)]
pub struct CapacityError;

/// The system could not provide the storage for a bucket.
#[derive(Debug, Clone, Copy, PartialEq, Eq)]
pub struct RawAllocError;

/// What one allocation asks for: `count` contiguous values of `size` bytes
/// each, placed at an address that is a multiple of `align`.
pub struct Request {
    pub size: nat,
    pub align: nat,
    pub count: nat,
}

impl Request {
    /// The request for `count` values of type `T`.
    pub open spec fn of<T>(count: nat) -> Request {
        Request { size: size_of::<T>(), align: align_of::<T>(), count }
    }

    /// The number of bytes asked for.
    pub open spec fn bytes(self) -> nat {
        self.size * self.count
    }

    /// An alignment is never zero.
    pub open spec fn wf(self) -> bool {
        self.align > 0
    }
}

/// The mathematical model of a bucket.
#[verifier::ext_equal]
pub struct BucketView {
    /// Address of the first byte of the storage.
    pub base: nat,
    /// Offset of the next free byte.
    pub cursor: nat,
    /// The storage itself; its length is the capacity.
    pub bytes: Seq<u8>,
}

impl BucketView {
    /// The fixed number of bytes in the bucket.
    pub open spec fn capacity(self) -> nat {
        self.bytes.len()
    }

    /// The cursor stays inside the storage, the storage is no larger than any
    /// single region of memory may be, and its addresses do not wrap around.
    pub open spec fn wf(self) -> bool {
        &&& self.cursor <= self.capacity()
        &&& self.capacity() <= isize::MAX
        &&& self.base + self.capacity() <= usize::MAX
    }

    /// A bucket of `capacity` zero bytes at `base` from which nothing has been
    /// handed out.
    pub open spec fn fresh(base: nat, capacity: nat) -> BucketView {
        BucketView { base, cursor: 0, bytes: Seq::new(capacity, |i: int| 0u8) }
    }

    /// Whether every byte has been handed out.
    pub open spec fn is_full(self) -> bool {
        self.cursor == self.capacity()
    }

    /// Address of the next free byte.
    pub open spec fn free_address(self) -> nat {
        self.base + self.cursor
    }

    /// The least offset at or after the cursor whose address is a multiple of
    /// `align`.
    pub open spec fn aligned_cursor(self, align: nat) -> int {
        align_up(self.free_address() as int, align as int) - self.base
    }

    /// Whether the request can be placed in what is left of the bucket.
    pub open spec fn fits(self, req: Request) -> bool {
        self.aligned_cursor(req.align) + req.bytes() <= self.capacity()
    }

    /// The bucket after it was asked for `req`: the cursor stands behind the
    /// new region if the request fits, and nothing has changed if it does not.
    pub open spec fn malloc(self, req: Request) -> BucketView {
        if self.fits(req) {
            BucketView { cursor: (self.aligned_cursor(req.align) + req.bytes()) as nat, ..self }
        } else {
            self
        }
    }

    /// The bucket after `value` was written at `offset`.
    pub open spec fn store(self, offset: int, value: u8) -> BucketView {
        if 0 <= offset < self.cursor {
            BucketView { bytes: self.bytes.update(offset, value), ..self }
        } else {
            self
        }
    }
}

/// One contiguous, fixed-capacity byte region with a cursor at its next free
/// byte. The storage lives as long as the bucket does.
pub struct Bucket {
    /// The storage that the bytes of the bucket lie in.
    data: Vec<u8>,
    /// Index in the storage of the first byte of the bucket.
    head: usize,
    /// Number of bytes of the bucket.
    capacity: usize,
    /// Address of the first byte of the bucket.
    base: usize,
    /// Offset of the next free byte.
    cursor: usize,
}

impl View for Bucket {
    type V = BucketView;

    closed spec fn view(&self) -> BucketView {
        BucketView {
            base: self.base as nat,
            cursor: self.cursor as nat,
            bytes: Seq::new(self.capacity as nat, |i: int| self.data@[self.head + i]),
        }
    }
}

/// `Vec::as_mut_ptr` of std, with the pointer converted to its address.
///
/// Claims only that the call leaves the vector's contents as they were.
/// Nothing is claimed of the address.
#[verifier::external_body]
fn storage_address(data: &mut Vec<u8>) -> (addr: usize)
    ensures
        final(data)@ == old(data)@,
{
    data.as_mut_ptr() as usize
}

impl Bucket {
    /// Whether the bytes of the bucket lie within its storage.
    pub closed spec fn inv(&self) -> bool {
        self.head + self.capacity <= self.data@.len()
    }

    /// Whether the bucket's model is well formed and its bytes lie within its
    /// storage.
    pub open spec fn wf(&self) -> bool {
        &&& self@.wf()
        &&& self.inv()
    }

    /// The alignment that the first byte of every allocated bucket has: that
    /// of a machine word.
    pub open spec fn base_align() -> nat {
        align_of::<usize>()
    }

    /// Whether a storage of `size` bytes is one that can be asked of the
    /// system at all.
    pub open spec fn valid_size(size: nat) -> bool {
        size <= isize::MAX
    }

    /// Checks that `size` bytes make a valid storage request.
    pub fn layout_from_size(size: usize) -> (result: Result<usize, RawAllocError>)
        ensures
            result is Ok <==> Self::valid_size(size as nat),
            result matches Ok(n) ==> n == size,
    {
        if size > isize::MAX as usize {
            Err(RawAllocError)
        } else {
            Ok(size)
        }
    }

    /// Makes a bucket of the storage `data`, taken to start at address `base`.
    /// Fails where the storage is too large or its addresses would wrap around.
    pub fn from_storage(base: usize, data: Vec<u8>) -> (result: Result<Bucket, RawAllocError>)
        ensures
            result is Ok <==> Self::valid_size(data@.len()) && base + data@.len() <= usize::MAX,
            result matches Ok(bucket) ==> bucket@ == (BucketView {
                base: base as nat,
                cursor: 0,
                bytes: data@,
            }) && bucket.wf(),
    {
        let len: usize = data.len();
        if len > isize::MAX as usize || len > usize::MAX - base {
            Err(RawAllocError)
        } else {
            let bucket = Bucket { data, head: 0, capacity: len, base, cursor: 0 };
            assert(bucket@.bytes =~= data@);
            Ok(bucket)
        }
    }

    /// Makes a bucket of `capacity` bytes within the storage `data`, which is
    /// taken to start at address `addr`. The bucket starts at the first
    /// address in the storage that is aligned for a machine word.
    ///
    /// Fails where the capacity is no valid size, where the storage behind
    /// that address holds fewer bytes than `capacity`, or where the addresses
    /// of the bucket would wrap around.
    pub fn aligned_within(addr: usize, data: Vec<u8>, capacity: usize) -> (result: Result<
        Bucket,
        RawAllocError,
    >)
        ensures
            result is Ok <==> {
                &&& Self::valid_size(capacity as nat)
                &&& align_up(addr as int, Self::base_align() as int) - addr + capacity
                    <= data@.len()
                &&& align_up(addr as int, Self::base_align() as int) + capacity <= usize::MAX
            },
            result matches Ok(bucket) ==> {
                &&& bucket.wf()
                &&& is_aligned(bucket@.base as int, Self::base_align() as int)
                &&& bucket@ == (BucketView {
                    base: align_up(addr as int, Self::base_align() as int) as nat,
                    cursor: 0,
                    bytes: data@.subrange(
                        align_up(addr as int, Self::base_align() as int) - addr,
                        align_up(addr as int, Self::base_align() as int) - addr + capacity,
                    ),
                })
            },
    {
        broadcast use vstd::layout::align_nonzero;

        proof {
            lemma_align_up_is_least(addr as int, Self::base_align() as int);
        }
        if capacity > isize::MAX as usize {
            return Err(RawAllocError);
        }
        let base: usize = match next_aligned(addr, core::mem::align_of::<usize>()) {
            Some(base) => base,
            None => {
                return Err(RawAllocError);
            },
        };
        let head: usize = base - addr;
        let len: usize = data.len();
        if head > len || capacity > len - head || capacity > usize::MAX - base {
            Err(RawAllocError)
        } else {
            let bucket = Bucket { data, head, capacity, base, cursor: 0 };
            assert(bucket@.bytes =~= data@.subrange(head as int, head + capacity));
            Ok(bucket)
        }
    }

    /// Allocates a bucket of `capacity` zero bytes whose first byte lies at
    /// an address that is aligned for a machine word.
    ///
    /// A bucket of no bytes asks nothing of the system and is always made, at
    /// the least such address. For any other capacity the system decides
    /// whether the storage can be had; a capacity that is no valid size is
    /// always refused.
    pub fn new(capacity: usize) -> (result: Result<Bucket, RawAllocError>)
        ensures
            capacity == 0 ==> result is Ok,
            !Self::valid_size(capacity as nat) ==> result is Err,
            result matches Ok(bucket) ==> {
                &&& bucket.wf()
                &&& bucket@ == BucketView::fresh(bucket@.base, capacity as nat)
                &&& is_aligned(bucket@.base as int, Self::base_align() as int)
                &&& capacity == 0 ==> bucket@.base == Self::base_align()
            },
    {
        broadcast use vstd::layout::align_nonzero;

        let size: usize = match Self::layout_from_size(capacity) {
            Ok(size) => size,
            Err(e) => {
                return Err(e);
            },
        };
        let align: usize = core::mem::align_of::<usize>();
        let mut data: Vec<u8> = Vec::new();
        if size == 0 {
            proof {
                lemma_align_up_is_least(align as int, align as int);
            }
            return Self::aligned_within(align, data, 0);
        }
        proof {
            lemma_word_alignment_is_small();
        }
        let padded: usize = size + (align - 1);
        if data.try_reserve(padded).is_err() {
            return Err(RawAllocError);
        }
        data.resize(padded, 0u8);
        let addr: usize = storage_address(&mut data);
        proof {
            lemma_align_up_is_least(addr as int, align as int);
        }
        let made = Self::aligned_within(addr, data, size);
        proof {
            if made is Ok {
                assert(made->Ok_0@.bytes =~= Seq::new(size as nat, |i: int| 0u8));
            }
        }
        made
    }

    /// The fixed number of bytes in the bucket.
    pub fn capacity(&self) -> (n: usize)
        ensures
            n == self@.capacity(),
    {
        self.capacity
    }

    /// Offset of the next free byte.
    pub fn cursor(&self) -> (n: usize)
        ensures
            n == self@.cursor,
    {
        self.cursor
    }

    /// Address of the first byte of the storage.
    pub fn base(&self) -> (addr: usize)
        ensures
            addr == self@.base,
    {
        self.base
    }

    /// Whether every byte has been handed out.
    pub fn is_full(&self) -> (full: bool)
        ensures
            full == self@.is_full(),
    {
        self.cursor == self.capacity()
    }

    /// Address of the next free byte.
    pub fn data_start_address(&self) -> (addr: usize)
        requires
            self.wf(),
        ensures
            addr == self@.free_address(),
    {
        self.base + self.cursor
    }

    /// The next offset whose address has the alignment of `T`; `None` when
    /// that address is beyond `usize`, and the offset so beyond the bucket.
    pub fn align_index_for<T>(&self) -> (result: Option<usize>)
        requires
            self.wf(),
        ensures
            match result {
                Some(offset) => {
                    &&& offset == self@.aligned_cursor(align_of::<T>())
                    &&& self@.base + offset <= usize::MAX
                },
                None => {
                    &&& self@.base + self@.aligned_cursor(align_of::<T>()) > usize::MAX
                    &&& self@.aligned_cursor(align_of::<T>()) > self@.capacity()
                },
            },
    {
        broadcast use vstd::layout::align_nonzero;

        let start_addr: usize = self.data_start_address();
        proof {
            lemma_align_up_is_least(start_addr as int, align_of::<T>() as int);
        }
        match next_aligned(start_addr, core::mem::align_of::<T>()) {
            Some(aligned_start) => Some(aligned_start - self.base),
            None => None,
        }
    }

    /// Reserves room for `count` contiguous values of type `T` at the next
    /// offset whose address is aligned for `T`, and returns that offset.
    ///
    /// Fails, and leaves the bucket as it was, exactly when the padded request
    /// does not fit into what is left. A byte count too large for `usize`
    /// fits nowhere and fails likewise.
    pub fn malloc<T>(&mut self, count: usize) -> (result: Result<usize, CapacityError>)
        requires
            old(self).wf(),
        ensures
            final(self).wf(),
            final(self)@ == old(self)@.malloc(Request::of::<T>(count as nat)),
            match result {
                Ok(offset) => {
                    &&& old(self)@.fits(Request::of::<T>(count as nat))
                    &&& offset == old(self)@.aligned_cursor(align_of::<T>())
                },
                Err(_) => !old(self)@.fits(Request::of::<T>(count as nat)),
            },
    {
        let start: usize = match self.align_index_for::<T>() {
            Some(start) => start,
            None => {
                return Err(CapacityError);
            },
        };
        let total_alloc_size: usize = match core::mem::size_of::<T>().checked_mul(count) {
            Some(total) => total,
            None => {
                return Err(CapacityError);
            },
        };
        let end: usize = match start.checked_add(total_alloc_size) {
            Some(end) => end,
            None => {
                return Err(CapacityError);
            },
        };
        if end > self.capacity() {
            return Err(CapacityError);
        }
        self.cursor = end;
        Ok(start)
    }

    /// Reads the byte at `offset`, if it lies in a part that was handed out.
    pub fn load(&self, offset: usize) -> (result: Option<u8>)
        requires
            self.wf(),
        ensures
            result == if offset < self@.cursor {
                Some(self@.bytes[offset as int])
            } else {
                None
            },
    {
        if offset < self.cursor {
            assert(self.head + offset < self.data.len() <= usize::MAX);
            Some(self.data[self.head + offset])
        } else {
            None
        }
    }

    /// Writes `value` at `offset`, if it lies in a part that was handed out,
    /// and says whether it did.
    pub fn store(&mut self, offset: usize, value: u8) -> (stored: bool)
        requires
            old(self).wf(),
        ensures
            final(self).wf(),
            stored == (offset < old(self)@.cursor),
            final(self)@ == old(self)@.store(offset as int, value),
    {
        if offset < self.cursor {
            assert(self.head + offset < self.data.len() <= usize::MAX);
            self.data.set(self.head + offset, value);
            assert(self@.bytes =~= old(self)@.bytes.update(offset as int, value));
            true
        } else {
            false
        }
    }
}

/// The alignment of a machine word is no more than its size, which is at
/// most eight bytes.
proof fn lemma_word_alignment_is_small()
    ensures
        0 < align_of::<usize>() <= size_of::<usize>() <= 8,
{
    broadcast use vstd::layout::layout_of_primitives;
    broadcast use vstd::layout::align_properties;
    broadcast use vstd::layout::align_nonzero;

    let size = size_of::<usize>() as int;
    let align = align_of::<usize>() as int;
    assert(size * 8 == usize::BITS);
    assert(size % align == 0);
    if align > size {
        vstd::arithmetic::div_mod::lemma_small_mod(size as nat, align as nat);
    }
}

/// Asking a bucket for room keeps it well formed, never moves its cursor
/// backwards and leaves its address and its bytes alone.
pub proof fn lemma_malloc_keeps_bucket(bucket: BucketView, req: Request)
    requires
        bucket.wf(),
        req.wf(),
    ensures
        bucket.malloc(req).wf(),
        bucket.cursor <= bucket.malloc(req).cursor,
        bucket.malloc(req).base == bucket.base,
        bucket.malloc(req).bytes == bucket.bytes,
{
    lemma_align_up_is_least(bucket.free_address() as int, req.align as int);
}

/// Where a request fits, its region starts at the first aligned address at
/// or after the cursor, with less than `align` bytes of padding before it,
/// and the cursor then stands at its end.
pub proof fn lemma_placement(bucket: BucketView, req: Request)
    requires
        bucket.wf(),
        req.wf(),
        bucket.fits(req),
    ensures
        bucket.cursor <= bucket.aligned_cursor(req.align) < bucket.cursor + req.align,
        is_aligned(bucket.base + bucket.aligned_cursor(req.align), req.align as int),
        forall|addr: int|
            bucket.free_address() <= addr < bucket.base + bucket.aligned_cursor(req.align)
                ==> !is_aligned(addr, req.align as int),
        bucket.malloc(req).cursor == bucket.aligned_cursor(req.align) + req.bytes(),
        bucket.malloc(req).cursor <= bucket.capacity(),
{
    lemma_align_up_is_least(bucket.free_address() as int, req.align as int);
}

/// Of two requests that a bucket serves one after the other, the second
/// region never starts before the first one ends.
pub proof fn lemma_regions_in_order(bucket: BucketView, first: Request, second: Request)
    requires
        bucket.wf(),
        first.wf(),
        second.wf(),
        bucket.fits(first),
        bucket.malloc(first).fits(second),
    ensures
        bucket.aligned_cursor(first.align) + first.bytes() <= bucket.malloc(first).aligned_cursor(
            second.align,
        ),
{
    lemma_placement(bucket, first);
    lemma_malloc_keeps_bucket(bucket, first);
    lemma_placement(bucket.malloc(first), second);
}

/// A request for more bytes than the bucket has in all never fits, wherever
/// the cursor stands.
pub proof fn lemma_oversized_request_fails(bucket: BucketView, req: Request)
    requires
        bucket.wf(),
        req.wf(),
        req.bytes() > bucket.capacity(),
    ensures
        !bucket.fits(req),
        bucket.malloc(req) == bucket,
{
    lemma_align_up_is_least(bucket.free_address() as int, req.align as int);
}

/// A request for no values fails only where the padding before the next
/// aligned address does not fit. Where it is served, the cursor moves to that
/// address and no further; where the cursor is aligned already, nothing moves.
pub proof fn lemma_empty_request(bucket: BucketView, req: Request)
    requires
        bucket.wf(),
        req.wf(),
        req.count == 0,
    ensures
        bucket.fits(req) <==> bucket.aligned_cursor(req.align) <= bucket.capacity(),
        bucket.fits(req) ==> bucket.malloc(req).cursor == bucket.aligned_cursor(req.align),
        bucket.malloc(req).cursor < bucket.cursor + req.align,
        is_aligned(bucket.free_address() as int, req.align as int) ==> bucket.malloc(req) == bucket,
{
    lemma_align_up_is_least(bucket.free_address() as int, req.align as int);
    assert(req.bytes() == 0) by (nonlinear_arith)
        requires
            req.bytes() == req.size * req.count,
            req.count == 0,
    ;
}

} // verus!
