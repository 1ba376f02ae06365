//! The arena: an ordered list of buckets, of which the last one serves
//! allocation requests, and which grows by doubling.
use vstd::prelude::*;
use vstd::arithmetic::power2::lemma2_to64;
use vstd::arithmetic::power2::lemma_pow2_unfold;
use vstd::arithmetic::power2::pow2;
use crate::bucket::Bucket;
use crate::bucket::BucketView;
use crate::bucket::CapacityError;
use crate::bucket::RawAllocError;
use crate::bucket::Request;
use crate::bucket::lemma_malloc_keeps_bucket;
use crate::bucket::lemma_placement;
use crate::layout::is_aligned;
use crate::layout::lemma_aligned_for_finer;
use crate::region::Region;
use crate::region::RegionView;

verus! {

/// Capacity in bytes of the first bucket of an arena made by [`Arena::new`].
pub const DEFAULT_BUCKET_CAPACITY: usize = 512;

/// Why an arena could not serve a request.
#[derive(Debug, Clone, Copy, PartialEq, Eq)]
pub enum MallocError {
    /// Not even the bucket that the arena grew by can hold the request.
    Capacity(CapacityError),
    /// The system did not provide the storage for a new bucket.
    RawAlloc(RawAllocError),
}

/// The model of what a call of `malloc` returned.
pub open spec fn outcome(result: Result<Region, MallocError>) -> Result<RegionView, MallocError> {
    match result {
        Ok(region) => Ok(region@),
        Err(e) => Err(e),
    }
}

/// The mathematical model of an arena.
#[verifier::ext_equal]
pub struct ArenaView {
    /// The buckets, oldest first.
    pub buckets: Seq<BucketView>,
    /// Index of the bucket that serves requests.
    pub index: nat,
    /// Capacity that the first bucket gets.
    pub first_capacity: nat,
}

impl ArenaView {
    /// There are no more buckets than can be counted, every bucket is well
    /// formed and starts at an address aligned for a machine word, the active
    /// bucket is the last one, the first bucket has the first capacity and
    /// each later one has twice the capacity of the one before it.
    pub open spec fn wf(self) -> bool {
        &&& self.buckets.len() <= usize::MAX
        &&& forall|i: int|
            0 <= i < self.buckets.len() ==> {
                &&& (#[trigger] self.buckets[i]).wf()
                &&& is_aligned(self.buckets[i].base as int, Bucket::base_align() as int)
            }
        &&& if self.buckets.len() == 0 {
            self.index == 0
        } else {
            self.index == self.buckets.len() - 1
        }
        &&& self.buckets.len() > 0 ==> self.buckets[0].capacity() == self.first_capacity
        &&& forall|i: int| 0 < i < self.buckets.len() ==> #[trigger] self.doubles_at(i)
    }

    /// The arena that has no bucket yet and whose first bucket will have
    /// `first_capacity` bytes.
    pub open spec fn empty(first_capacity: nat) -> ArenaView {
        ArenaView { buckets: Seq::empty(), index: 0, first_capacity }
    }

    /// Whether bucket `i` has twice the capacity of the bucket before it.
    pub open spec fn doubles_at(self, i: int) -> bool {
        self.buckets[i].capacity() == 2 * self.buckets[i - 1].capacity()
    }

    /// The bucket that serves requests.
    pub open spec fn active(self) -> BucketView
        recommends
            self.buckets.len() > 0,
    {
        self.buckets[self.index as int]
    }

    /// Capacity of the bucket that the next growth step appends.
    pub open spec fn next_capacity(self) -> nat {
        if self.buckets.len() == 0 {
            self.first_capacity
        } else {
            2 * self.active().capacity()
        }
    }

    /// The arena with `bucket` appended and made the active one.
    pub open spec fn extended(self, bucket: BucketView) -> ArenaView {
        ArenaView {
            buckets: self.buckets.push(bucket),
            index: self.buckets.len(),
            first_capacity: self.first_capacity,
        }
    }

    /// The arena after one growth step whose new bucket starts at `base`.
    pub open spec fn grown(self, base: nat) -> ArenaView {
        self.extended(BucketView::fresh(base, self.next_capacity()))
    }

    /// The arena after its active bucket was asked for `req`.
    pub open spec fn served(self, req: Request) -> ArenaView
        recommends
            self.buckets.len() > 0,
    {
        ArenaView {
            buckets: self.buckets.update(self.index as int, self.active().malloc(req)),
            ..self
        }
    }

    /// The region that the active bucket hands out for `req`.
    pub open spec fn region(self, req: Request) -> RegionView
        recommends
            self.buckets.len() > 0,
            self.active().fits(req),
    {
        RegionView {
            bucket: self.index,
            offset: self.active().aligned_cursor(req.align) as nat,
            len: req.bytes(),
            addr: (self.active().base + self.active().aligned_cursor(req.align)) as nat,
        }
    }

    /// What the active bucket answers to `req`.
    pub open spec fn answer(self, req: Request) -> Result<RegionView, CapacityError>
        recommends
            self.buckets.len() > 0,
    {
        if self.active().fits(req) {
            Ok(self.region(req))
        } else {
            Err(CapacityError)
        }
    }

    /// Whether `region` lies in a part of one of the buckets that was handed
    /// out.
    pub open spec fn holds(self, region: RegionView) -> bool {
        &&& region.bucket < self.buckets.len()
        &&& region.end() <= self.buckets[region.bucket as int].cursor
        &&& region.addr == self.buckets[region.bucket as int].base + region.offset
    }

    /// The arena after `value` was written to byte `at` of `region`.
    pub open spec fn store(self, region: RegionView, at: int, value: u8) -> ArenaView {
        if self.holds(region) && 0 <= at < region.len {
            ArenaView {
                buckets: self.buckets.update(
                    region.bucket as int,
                    self.buckets[region.bucket as int].store(region.offset + at, value),
                ),
                ..self
            }
        } else {
            self
        }
    }
}

/// How an arena with at least one bucket deals with a request: the active
/// bucket serves it if it can; otherwise the arena grows by one bucket and
/// that bucket gets the request, once. Where the system refuses the storage
/// for the new bucket, nothing changes; it never refuses a bucket of no
/// bytes.
pub open spec fn attempt(
    pre: ArenaView,
    req: Request,
    post: ArenaView,
    result: Result<RegionView, MallocError>,
) -> bool
    recommends
        pre.buckets.len() > 0,
{
    if pre.active().fits(req) {
        &&& post == pre.served(req)
        &&& result == Ok::<RegionView, MallocError>(pre.region(req))
    } else if post.buckets.len() == pre.buckets.len() {
        &&& pre.next_capacity() > 0
        &&& post == pre
        &&& result == Err::<RegionView, MallocError>(MallocError::RawAlloc(RawAllocError))
    } else {
        let grown = pre.grown(post.buckets.last().base);
        &&& post == grown.served(req)
        &&& result == match grown.answer(req) {
            Ok(region) => Ok(region),
            Err(e) => Err(MallocError::Capacity(e)),
        }
    }
}

/// One call of [`Arena::malloc`], from the arena before it to the arena after
/// it and the result. An arena without a bucket first gets its first one.
pub open spec fn malloc_step(
    pre: ArenaView,
    req: Request,
    post: ArenaView,
    result: Result<RegionView, MallocError>,
) -> bool {
    if pre.buckets.len() > 0 {
        attempt(pre, req, post, result)
    } else if post.buckets.len() == 0 {
        &&& pre.next_capacity() > 0
        &&& post == pre
        &&& result == Err::<RegionView, MallocError>(MallocError::RawAlloc(RawAllocError))
    } else {
        attempt(pre.grown(post.buckets[0].base), req, post, result)
    }
}

/// An ordered list of buckets. Requests go to the last one; when it cannot
/// serve one, the arena appends a bucket of twice its capacity.
pub struct Arena {
    index: usize,
    buckets: Vec<Bucket>,
    first_capacity: usize,
}

impl View for Arena {
    type V = ArenaView;

    closed spec fn view(&self) -> ArenaView {
        ArenaView {
            buckets: Seq::new(self.buckets@.len(), |i: int| self.buckets@[i]@),
            index: self.index as nat,
            first_capacity: self.first_capacity as nat,
        }
    }
}

impl Arena {
    /// Whether the bytes of every bucket lie within its storage.
    pub closed spec fn inv(&self) -> bool {
        forall|i: int| 0 <= i < self.buckets@.len() ==> (#[trigger] self.buckets@[i]).inv()
    }

    /// Whether the arena's model is well formed and the bytes of every bucket
    /// lie within its storage.
    pub open spec fn wf(&self) -> bool {
        &&& self@.wf()
        &&& self.inv()
    }

    /// An arena with its first bucket, of [`DEFAULT_BUCKET_CAPACITY`] bytes,
    /// from which nothing has been handed out.
    ///
    /// Fails where the system refuses the storage for that bucket.
    pub fn new() -> (result: Result<Arena, RawAllocError>)
        ensures
            result matches Ok(arena) ==> {
                &&& arena.wf()
                &&& arena@.first_capacity == DEFAULT_BUCKET_CAPACITY
                &&& arena@.buckets.len() == 1
                &&& arena@.index == 0
                &&& arena@.buckets[0] == BucketView::fresh(
                    arena@.buckets[0].base,
                    DEFAULT_BUCKET_CAPACITY as nat,
                )
                &&& arena@ == ArenaView::empty(DEFAULT_BUCKET_CAPACITY as nat).grown(
                    arena@.buckets[0].base,
                )
            },
    {
        let mut arena = Self::with_bucket_capacity(DEFAULT_BUCKET_CAPACITY);
        match arena.grow() {
            Ok(()) => Ok(arena),
            Err(e) => Err(e),
        }
    }

    /// An arena that has no bucket yet. The first request, or the first
    /// growth step, makes its first bucket, of `first_capacity` bytes.
    pub fn with_bucket_capacity(first_capacity: usize) -> (arena: Arena)
        ensures
            arena.wf(),
            arena@ == ArenaView::empty(first_capacity as nat),
    {
        Arena { index: 0, buckets: Vec::new(), first_capacity }
    }

    /// Index of the bucket that serves requests.
    pub fn index(&self) -> (i: usize)
        ensures
            i == self@.index,
    {
        self.index
    }

    /// Number of buckets.
    pub fn bucket_count(&self) -> (n: usize)
        ensures
            n == self@.buckets.len(),
    {
        self.buckets.len()
    }

    /// Capacity of the active bucket; the first capacity while there is no
    /// bucket.
    pub fn bucket_size(&self) -> (n: usize)
        requires
            self.wf(),
        ensures
            n == if self@.buckets.len() == 0 {
                self@.first_capacity
            } else {
                self@.active().capacity()
            },
    {
        if self.index < self.buckets.len() {
            self.buckets[self.index].capacity()
        } else {
            self.first_capacity
        }
    }

    /// The active bucket, if there is one.
    pub fn last_bucket(&self) -> (result: Option<&Bucket>)
        requires
            self.wf(),
        ensures
            match result {
                Some(bucket) => self@.buckets.len() > 0 && bucket@ == self@.active(),
                None => self@.buckets.len() == 0,
            },
    {
        if self.buckets.len() == 0 {
            None
        } else {
            Some(&self.buckets[self.index])
        }
    }

    /// Capacity of the bucket that the next growth step appends; `None` when
    /// it is beyond `usize`.
    fn next_bucket_size(&self) -> (result: Option<usize>)
        requires
            self.wf(),
        ensures
            match result {
                Some(capacity) => capacity == self@.next_capacity(),
                None => self@.next_capacity() > usize::MAX,
            },
    {
        if self.buckets.len() == 0 {
            Some(self.first_capacity)
        } else {
            self.bucket_size().checked_mul(2)
        }
    }

    /// Appends `bucket`, an unused bucket of the next capacity, and makes it
    /// the active one.
    fn append(&mut self, bucket: Bucket)
        requires
            old(self).wf(),
            bucket.wf(),
            is_aligned(bucket@.base as int, Bucket::base_align() as int),
            bucket@.cursor == 0,
            bucket@.capacity() == old(self)@.next_capacity(),
        ensures
            final(self).wf(),
            final(self)@ == old(self)@.extended(bucket@),
    {
        let next: usize = self.buckets.len();
        self.buckets.push(bucket);
        self.index = next;
        proof {
            let pre = old(self)@;
            let post = self@;
            assert(post.buckets =~= pre.buckets.push(bucket@));
            assert(self.buckets.len() <= usize::MAX);
            assert forall|i: int| 0 < i < post.buckets.len() implies #[trigger] post.doubles_at(
                i,
            ) by {
                if i < pre.buckets.len() {
                    assert(pre.doubles_at(i));
                }
            }
        }
    }

    /// Appends a bucket of the next capacity and makes it the active one.
    ///
    /// Where the next capacity is zero the new bucket asks nothing of the
    /// system and the arena always grows. For any other capacity the system
    /// decides whether the storage can be had; a next capacity that is no
    /// valid size is always refused. On failure nothing changes.
    pub fn grow(&mut self) -> (result: Result<(), RawAllocError>)
        requires
            old(self).wf(),
        ensures
            final(self).wf(),
            match result {
                Ok(()) => {
                    &&& final(self)@.buckets.len() == old(self)@.buckets.len() + 1
                    &&& final(self)@ == old(self)@.grown(final(self)@.buckets.last().base)
                },
                Err(_) => final(self)@ == old(self)@,
            },
            old(self)@.next_capacity() == 0 ==> result is Ok,
            !Bucket::valid_size(old(self)@.next_capacity()) ==> result is Err,
    {
        let capacity: usize = match self.next_bucket_size() {
            Some(capacity) => capacity,
            None => {
                return Err(RawAllocError);
            },
        };
        match Bucket::new(capacity) {
            Ok(bucket) => {
                self.append(bucket);
                Ok(())
            },
            Err(e) => Err(e),
        }
    }

    /// Asks the active bucket for room for `count` values of type `T`.
    fn place<T>(&mut self, count: usize) -> (result: Result<Region, CapacityError>)
        requires
            old(self).wf(),
            old(self)@.buckets.len() > 0,
        ensures
            final(self).wf(),
            final(self)@ == old(self)@.served(Request::of::<T>(count as nat)),
            match result {
                Ok(region) => old(self)@.answer(Request::of::<T>(count as nat)) == Ok::<
                    RegionView,
                    CapacityError,
                >(region@),
                Err(e) => old(self)@.answer(Request::of::<T>(count as nat)) is Err,
            },
    {
        let index: usize = self.index;
        let bucket = &mut self.buckets[index];
        let answer = bucket.malloc::<T>(count);
        let base: usize = bucket.base();
        proof {
            let pre = old(self)@;
            let post = self@;
            let req = Request::of::<T>(count as nat);
            assert(post.buckets =~= pre.buckets.update(index as int, pre.active().malloc(req)));
            assert forall|i: int| 0 < i < post.buckets.len() implies #[trigger] post.doubles_at(
                i,
            ) by {
                assert(pre.doubles_at(i));
            }
        }
        match answer {
            Ok(offset) => {
                let len: usize = core::mem::size_of::<T>() * count;
                let addr: usize = base + offset;
                Ok(Region::new(index, offset, len, addr))
            },
            Err(e) => Err(e),
        }
    }

    /// Reserves room for `count` contiguous values of type `T` and returns the
    /// region.
    ///
    /// The active bucket serves the request if it can. Otherwise the arena
    /// grows by one bucket and asks that one, once: if the request does not
    /// fit there either, the call fails with a capacity error and the new
    /// bucket stays. An arena without buckets gets its first one before
    /// anything else. Where the system refuses storage, the call fails with
    /// that error.
    pub fn malloc<T>(&mut self, count: usize) -> (result: Result<Region, MallocError>)
        requires
            old(self).wf(),
        ensures
            final(self).wf(),
            malloc_step(old(self)@, Request::of::<T>(count as nat), final(self)@, outcome(result)),
    {
        let ghost req = Request::of::<T>(count as nat);
        if self.buckets.len() == 0 {
            match self.grow() {
                Ok(()) => {},
                Err(e) => {
                    return Err(MallocError::RawAlloc(e));
                },
            }
        }
        let ghost ready = self@;
        match self.place::<T>(count) {
            Ok(region) => Ok(region),
            Err(_) => {
                assert(self@ == ready);
                match self.grow() {
                    Ok(()) => {},
                    Err(e) => {
                        return Err(MallocError::RawAlloc(e));
                    },
                }
                let ghost grown = self@;
                let answer = self.place::<T>(count);
                proof {
                    assert(self@.buckets.last().base == grown.buckets.last().base);
                    assert(self@.buckets[0].base == ready.buckets[0].base);
                    assert(attempt(ready, req, self@, match answer {
                        Ok(region) => Ok(region@),
                        Err(e) => Err(MallocError::Capacity(e)),
                    }));
                }
                match answer {
                    Ok(region) => Ok(region),
                    Err(e) => Err(MallocError::Capacity(e)),
                }
            },
        }
    }

    /// Runs `f` once with a scope on this arena and returns what `f` returns.
    ///
    /// The scope is handed to `f` and ends with it: while `f` runs, requests
    /// reach the arena only through the scope, and the arena that the caller
    /// finds afterwards is the one that `f` left.
    pub fn region<F, O>(&mut self, f: F) -> (out: O) where F: FnOnce(Scope<'_>) -> O
        requires
            forall|scope: Scope<'_>| *scope.arena == *old(self) ==> #[trigger] f.requires((scope,)),
        ensures
            exists|scope: Scope<'_>|
                {
                    &&& *scope.arena == *old(self)
                    &&& *final(scope.arena) == *final(self)
                    &&& #[trigger] f.ensures((scope,), out)
                },
    {
        let scope = Scope { arena: &mut *self };
        let ghost handed = scope;
        let out = f(scope);
        assert(f.ensures((handed,), out));
        out
    }

    /// Whether `region` lies in a part of one of the buckets that was handed
    /// out, at the address it names.
    pub fn holds(&self, region: &Region) -> (held: bool)
        requires
            self.wf(),
        ensures
            held == self@.holds(region@),
    {
        if region.bucket() >= self.buckets.len() {
            return false;
        }
        let bucket = &self.buckets[region.bucket()];
        assert(bucket@ == self@.buckets[region@.bucket as int]);
        match region.offset().checked_add(region.len()) {
            Some(end) => end <= bucket.cursor() && region.addr() == bucket.base() + region.offset(),
            None => false,
        }
    }

    /// Reads byte `at` of `region`; `None` unless the arena holds the region
    /// and `at` lies in it.
    pub fn read(&self, region: &Region, at: usize) -> (result: Option<u8>)
        requires
            self.wf(),
        ensures
            result == if self@.holds(region@) && at < region@.len {
                Some(self@.buckets[region@.bucket as int].bytes[region@.offset + at])
            } else {
                None
            },
    {
        if self.holds(region) && at < region.len() {
            self.buckets[region.bucket()].load(region.offset() + at)
        } else {
            None
        }
    }

    /// Writes `value` to byte `at` of `region`, and says whether it did. It
    /// does unless the arena does not hold the region or `at` lies outside it.
    pub fn write(&mut self, region: &Region, at: usize, value: u8) -> (written: bool)
        requires
            old(self).wf(),
        ensures
            final(self).wf(),
            written == (old(self)@.holds(region@) && at < region@.len),
            final(self)@ == old(self)@.store(region@, at as int, value),
    {
        if self.holds(region) && at < region.len() {
            let bucket = &mut self.buckets[region.bucket()];
            let stored: bool = bucket.store(region.offset() + at, value);
            proof {
                let pre = old(self)@;
                let post = self@;
                assert(post.buckets =~= pre.buckets.update(
                    region@.bucket as int,
                    pre.buckets[region@.bucket as int].store(region@.offset + at, value),
                ));
                assert forall|i: int| 0 < i < post.buckets.len() implies #[trigger] post.doubles_at(
                    i,
                ) by {
                    assert(pre.doubles_at(i));
                }
            }
            stored
        } else {
            false
        }
    }
}

/// A token for one stretch of use of an arena. It borrows the arena for as
/// long as it lives and carries nothing else.
pub struct Scope<'scope> {
    pub arena: &'scope mut Arena,
}

impl<'scope> Scope<'scope> {
    /// Hands the request on to the arena: see [`Arena::malloc`].
    pub fn malloc<T>(&mut self, count: usize) -> (result: Result<Region, MallocError>)
        requires
            old(self).arena.wf(),
        ensures
            final(self).arena.wf(),
            malloc_step(
                old(self).arena@,
                Request::of::<T>(count as nat),
                final(self).arena@,
                outcome(result),
            ),
            *final(final(self).arena) == *final(old(self).arena),
    {
        self.arena.malloc::<T>(count)
    }
}

/// Bucket `i` of an arena has the first capacity doubled `i` times, so an
/// arena whose first capacity is not zero has at most as many buckets as
/// there are doublings below the largest valid size.
pub proof fn lemma_capacity_of_bucket(arena: ArenaView, i: int)
    requires
        arena.wf(),
        0 <= i < arena.buckets.len(),
    ensures
        arena.buckets[i].capacity() == arena.first_capacity * pow2(i as nat),
        arena.first_capacity * pow2(i as nat) <= isize::MAX,
    decreases i,
{
    let first = arena.first_capacity as int;
    if i == 0 {
        lemma2_to64();
        assert(first * pow2(0) == first) by (nonlinear_arith)
            requires
                pow2(0) == 1,
        ;
    } else {
        let below = pow2((i - 1) as nat) as int;
        lemma_capacity_of_bucket(arena, i - 1);
        assert(arena.doubles_at(i));
        lemma_pow2_unfold(i as nat);
        assert(first * (2 * below) == 2 * (first * below)) by (nonlinear_arith);
    }
    assert(arena.buckets[i].wf());
}

/// A request that the active bucket can serve is served there: the arena
/// does not grow, and no other bucket changes.
pub proof fn lemma_served_in_place(
    pre: ArenaView,
    req: Request,
    post: ArenaView,
    result: Result<RegionView, MallocError>,
)
    requires
        pre.wf(),
        req.wf(),
        pre.buckets.len() > 0,
        pre.active().fits(req),
        malloc_step(pre, req, post, result),
    ensures
        post.wf(),
        post.buckets.len() == pre.buckets.len(),
        post.index == pre.index,
        result == Ok::<RegionView, MallocError>(pre.region(req)),
        forall|i: int| 0 <= i < pre.index ==> post.buckets[i] == pre.buckets[i],
{
    lemma_malloc_keeps_bucket(pre.active(), req);
    assert forall|i: int| 0 < i < post.buckets.len() implies #[trigger] post.doubles_at(i) by {
        assert(pre.doubles_at(i));
    }
}

/// A request that the active bucket cannot serve makes the arena grow by
/// exactly one bucket of twice the active capacity, unless the system refuses
/// the storage. The request then succeeds exactly if it fits into the new,
/// empty bucket, and fails with a capacity error if it does not; the new
/// bucket stays either way, and the older buckets are as they were. Where the
/// new bucket starts at an aligned address, the request fits exactly if its
/// bytes are no more than the new capacity; it does start at one for every
/// alignment that divides that of a machine word.
pub proof fn lemma_growth_on_exhaustion(
    pre: ArenaView,
    req: Request,
    post: ArenaView,
    result: Result<RegionView, MallocError>,
)
    requires
        pre.wf(),
        req.wf(),
        pre.buckets.len() > 0,
        !pre.active().fits(req),
        malloc_step(pre, req, post, result),
        !(result matches Err(MallocError::RawAlloc(_))),
    ensures
        post.buckets.len() == pre.buckets.len() + 1,
        post.index == pre.index + 1,
        post.active().capacity() == 2 * pre.active().capacity(),
        forall|i: int| 0 <= i < pre.buckets.len() ==> post.buckets[i] == pre.buckets[i],
        result is Ok <==> BucketView::fresh(post.active().base, post.active().capacity()).fits(req),
        result is Err <==> result == Err::<RegionView, MallocError>(
            MallocError::Capacity(CapacityError),
        ),
        result is Err ==> post.active() == BucketView::fresh(
            post.active().base,
            post.active().capacity(),
        ),
        result matches Ok(region) ==> region.bucket == post.index && region.len == req.bytes(),
        is_aligned(post.active().base as int, req.align as int) ==> (result is Ok <==> req.bytes()
            <= post.active().capacity()),
        is_aligned(post.active().base as int, req.align as int) ==> (result matches Ok(region)
            ==> region.offset == 0),
        post.wf() && is_aligned(Bucket::base_align() as int, req.align as int) ==> is_aligned(
            post.active().base as int,
            req.align as int,
        ),
{
    let grown = pre.grown(post.buckets.last().base);
    let fresh = grown.active();
    assert(post == grown.served(req));
    assert(fresh == BucketView::fresh(post.buckets.last().base, 2 * pre.active().capacity()));
    assert(post.active().bytes == fresh.bytes);
    if post.wf() && is_aligned(Bucket::base_align() as int, req.align as int) {
        lemma_word_aligned_bucket(post, post.index as int, req);
    }
}

/// Every bucket of an arena starts at an address that is aligned for each
/// alignment that divides that of a machine word, so a request with such an
/// alignment needs no padding in a bucket from which nothing has been handed
/// out.
pub proof fn lemma_word_aligned_bucket(arena: ArenaView, i: int, req: Request)
    requires
        arena.wf(),
        req.wf(),
        0 <= i < arena.buckets.len(),
        is_aligned(Bucket::base_align() as int, req.align as int),
    ensures
        is_aligned(arena.buckets[i].base as int, req.align as int),
        arena.buckets[i].cursor == 0 ==> arena.buckets[i].aligned_cursor(req.align) == 0,
{
    broadcast use vstd::layout::align_nonzero;

    assert(arena.buckets[i].wf());
    lemma_aligned_for_finer(
        arena.buckets[i].base as int,
        Bucket::base_align() as int,
        req.align as int,
    );
}

/// One call never removes a bucket and adds at most one to an arena that has
/// one already (two to an arena that has none). It leaves every older bucket
/// where it is, its bytes as they are and its cursor no further back; a bucket
/// that is not the active one does not change at all. Every region the arena
/// held before is still held. Unless the system refused storage, the arena
/// has a bucket afterwards.
pub proof fn lemma_step_keeps_what_was(
    pre: ArenaView,
    req: Request,
    post: ArenaView,
    result: Result<RegionView, MallocError>,
)
    requires
        pre.wf(),
        req.wf(),
        malloc_step(pre, req, post, result),
    ensures
        pre.buckets.len() <= post.buckets.len() <= pre.buckets.len() + 2,
        pre.buckets.len() > 0 ==> post.buckets.len() <= pre.buckets.len() + 1,
        !(result matches Err(MallocError::RawAlloc(_))) ==> post.buckets.len() > 0,
        post.first_capacity == pre.first_capacity,
        forall|i: int|
            0 <= i < pre.buckets.len() ==> {
                &&& (#[trigger] post.buckets[i]).base == pre.buckets[i].base
                &&& post.buckets[i].bytes == pre.buckets[i].bytes
                &&& pre.buckets[i].cursor <= post.buckets[i].cursor
                &&& i != pre.index ==> post.buckets[i] == pre.buckets[i]
            },
        forall|region: RegionView| #[trigger] pre.holds(region) ==> post.holds(region),
{
    if pre.buckets.len() > 0 {
        lemma_malloc_keeps_bucket(pre.active(), req);
    }
}

/// The region of a successful call has the bytes asked for, starts at an
/// address with the alignment asked for, lies in the active bucket and is
/// held by the arena. Every region held before lies in an earlier bucket, or
/// in the same bucket and ends before the new one starts.
pub proof fn lemma_new_region(
    pre: ArenaView,
    req: Request,
    post: ArenaView,
    result: Result<RegionView, MallocError>,
)
    requires
        pre.wf(),
        req.wf(),
        post.wf(),
        malloc_step(pre, req, post, result),
        result is Ok,
    ensures
        post.holds(result->Ok_0),
        result->Ok_0.bucket == post.index,
        result->Ok_0.len == req.bytes(),
        is_aligned(result->Ok_0.addr as int, req.align as int),
        forall|region: RegionView| #[trigger]
            pre.holds(region) ==> {
                &&& region.bucket <= result->Ok_0.bucket
                &&& region.bucket == result->Ok_0.bucket ==> region.end() <= result->Ok_0.offset
            },
{
    let ready = if pre.buckets.len() > 0 {
        pre
    } else {
        pre.grown(post.buckets[0].base)
    };
    assert(attempt(ready, req, post, result));
    if ready.active().fits(req) {
        lemma_active_region(ready, req, post);
    } else {
        let grown = ready.grown(post.buckets.last().base);
        lemma_active_region(grown, req, post);
    }
}

/// The region that the active bucket hands out, once the arena `post` that
/// it leaves is known to be well formed.
proof fn lemma_active_region(ready: ArenaView, req: Request, post: ArenaView)
    requires
        req.wf(),
        post.wf(),
        ready.buckets.len() > 0,
        ready.index == ready.buckets.len() - 1,
        ready.active().cursor <= ready.active().capacity(),
        ready.active().fits(req),
        post == ready.served(req),
    ensures
        post.holds(ready.region(req)),
        ready.region(req).bucket == post.index,
        ready.region(req).len == req.bytes(),
        ready.region(req).offset == ready.active().aligned_cursor(req.align),
        ready.active().cursor <= ready.region(req).offset,
        is_aligned(ready.region(req).addr as int, req.align as int),
{
    let active = ready.active();
    assert(post.buckets[ready.index as int] == active.malloc(req));
    assert(post.buckets[ready.index as int].wf());
    assert(active.wf());
    lemma_placement(active, req);
}

/// A request for no values fails for want of capacity only where the arena
/// had to grow and the padding before the first aligned address of the new
/// bucket does not fit into it, which cannot be where the alignment divides
/// that of a machine word. Where the call succeeds, the region is empty and
/// the cursor of its bucket stands at its start.
pub proof fn lemma_empty_request_served(
    pre: ArenaView,
    req: Request,
    post: ArenaView,
    result: Result<RegionView, MallocError>,
)
    requires
        pre.wf(),
        req.wf(),
        post.wf(),
        req.count == 0,
        malloc_step(pre, req, post, result),
        !(result matches Err(MallocError::RawAlloc(_))),
    ensures
        result is Err ==> post.active().cursor == 0 && !is_aligned(
            post.active().base as int,
            req.align as int,
        ) && post.active().capacity() < req.align,
        result matches Ok(region) ==> region.len == 0 && post.active().cursor == region.offset,
        is_aligned(Bucket::base_align() as int, req.align as int) ==> result is Ok,
{
    if is_aligned(Bucket::base_align() as int, req.align as int) && post.buckets.len() > 0 {
        lemma_word_aligned_bucket(post, post.index as int, req);
    }
    crate::bucket::lemma_empty_request(post.active(), req);
    let ready = if pre.buckets.len() > 0 {
        pre
    } else {
        pre.grown(post.buckets[0].base)
    };
    assert(attempt(ready, req, post, result));
    assert(req.bytes() == 0) by (nonlinear_arith)
        requires
            req.bytes() == req.size * req.count,
            req.count == 0,
    ;
    if ready.active().fits(req) {
        lemma_active_region(ready, req, post);
    } else {
        let grown = ready.grown(post.buckets.last().base);
        if grown.active().fits(req) {
            lemma_active_region(grown, req, post);
        } else {
            assert(post.active() == grown.active());
            crate::layout::lemma_align_up_is_least(
                post.active().base as int,
                req.align as int,
            );
        }
    }
}

/// A write to a byte of one region changes that byte and nothing else: the
/// arena holds what it held, and every byte of a region that shares none with
/// the first reads as before.
pub proof fn lemma_write_stays_in_region(
    arena: ArenaView,
    written: RegionView,
    at: int,
    value: u8,
    other: RegionView,
    k: int,
)
    requires
        arena.wf(),
        arena.holds(written),
        arena.holds(other),
        written.disjoint(other),
        0 <= at < written.len,
        0 <= k < other.len,
    ensures
        arena.store(written, at, value).wf(),
        arena.store(written, at, value).holds(written),
        arena.store(written, at, value).holds(other),
        arena.store(written, at, value).buckets[written.bucket as int].bytes[written.offset + at]
            == value,
        arena.store(written, at, value).buckets[other.bucket as int].bytes[other.offset + k]
            == arena.buckets[other.bucket as int].bytes[other.offset + k],
{
    let after = arena.store(written, at, value);
    assert(arena.buckets[written.bucket as int].wf());
    assert forall|i: int| 0 < i < after.buckets.len() implies #[trigger] after.doubles_at(i) by {
        assert(arena.doubles_at(i));
    }
}

} // verus!
