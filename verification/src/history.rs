//! What holds of the regions that an arena hands out over its whole life.
use vstd::prelude::*;
use crate::arena::lemma_new_region;
use crate::arena::lemma_step_keeps_what_was;
use crate::arena::malloc_step;
use crate::arena::ArenaView;
use crate::arena::MallocError;
use crate::bucket::Request;
use crate::layout::is_aligned;
use crate::region::RegionView;

verus! {

/// One call of `malloc` as seen from outside: the request, the result and
/// the arena that the call left.
pub struct Call {
    pub req: Request,
    pub result: Result<RegionView, MallocError>,
    pub post: ArenaView,
}

/// The arena on which call `i` was made: the starting arena for the first
/// call, and then what the call before left.
pub open spec fn arena_before(start: ArenaView, calls: Seq<Call>, i: int) -> ArenaView {
    if i == 0 {
        start
    } else {
        calls[i - 1].post
    }
}

/// Whether call `i` is a call of `malloc` on the arena that stood before it.
pub open spec fn is_call(start: ArenaView, calls: Seq<Call>, i: int) -> bool {
    &&& calls[i].req.wf()
    &&& calls[i].post.wf()
    &&& malloc_step(arena_before(start, calls, i), calls[i].req, calls[i].post, calls[i].result)
}

/// Whether `calls` is a run of `malloc` calls on an arena that was `start`
/// before the first of them.
pub open spec fn is_history(start: ArenaView, calls: Seq<Call>) -> bool {
    &&& start.wf()
    &&& forall|i: int| 0 <= i < calls.len() ==> #[trigger] is_call(start, calls, i)
}

/// A region that was handed out has the bytes and the alignment that were
/// asked for, and the arena holds it after that call and after every later
/// one.
pub proof fn lemma_region_stays_held(start: ArenaView, calls: Seq<Call>, i: int, j: int)
    requires
        is_history(start, calls),
        0 <= i <= j < calls.len(),
        calls[i].result is Ok,
    ensures
        calls[i].result->Ok_0.len == calls[i].req.bytes(),
        is_aligned(calls[i].result->Ok_0.addr as int, calls[i].req.align as int),
        calls[j].post.holds(calls[i].result->Ok_0),
    decreases j - i,
{
    assert(is_call(start, calls, i));
    assert(arena_before(start, calls, i).wf()) by {
        if i > 0 {
            assert(is_call(start, calls, i - 1));
        }
    }
    lemma_new_region(arena_before(start, calls, i), calls[i].req, calls[i].post, calls[i].result);
    if i < j {
        lemma_region_stays_held(start, calls, i, j - 1);
        assert(is_call(start, calls, j));
        assert(is_call(start, calls, j - 1));
        lemma_step_keeps_what_was(calls[j - 1].post, calls[j].req, calls[j].post, calls[j].result);
    }
}

/// No two regions that an arena hands out share a byte. The later one lies
/// in the same bucket or a later one, and where it lies in the same bucket
/// it starts where the earlier one ends or behind that, by offset and by
/// address.
pub proof fn lemma_regions_never_overlap(start: ArenaView, calls: Seq<Call>, i: int, j: int)
    requires
        is_history(start, calls),
        0 <= i < j < calls.len(),
        calls[i].result is Ok,
        calls[j].result is Ok,
    ensures
        calls[i].result->Ok_0.disjoint(calls[j].result->Ok_0),
        calls[i].result->Ok_0.bucket <= calls[j].result->Ok_0.bucket,
        calls[i].result->Ok_0.bucket == calls[j].result->Ok_0.bucket ==> {
            &&& calls[i].result->Ok_0.end() <= calls[j].result->Ok_0.offset
            &&& calls[i].result->Ok_0.addr + calls[i].result->Ok_0.len
                <= calls[j].result->Ok_0.addr
        },
{
    lemma_region_stays_held(start, calls, i, j);
    lemma_region_stays_held(start, calls, i, j - 1);
    assert(is_call(start, calls, j));
    assert(is_call(start, calls, j - 1));
    lemma_new_region(calls[j - 1].post, calls[j].req, calls[j].post, calls[j].result);
}

} // verus!
