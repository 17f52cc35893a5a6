//! Concurrent request bucket queue for use by the matchmaker.

use vstd::prelude::*;

use crate::generator::generator::MatchmakingRequest;
use crate::matchmaking::scheduling::ring::{RingBuffer, RingConsumer, RingProducer};
use crate::matchmaking::utils::{
    clipped_range, clipped_window, lemma_clipped_window_items, visible_len, window_holds, window_lo, OffsetIndexedSlice,
    OffsetView,
};

verus! {

/// Request matrix bucketing requests into separate bins.
/// Designed to expose an interface that never blocks: buckets are either held
/// by the matrix or leased out, window by window.
pub struct RequestMatrix {
    buckets: Vec<Option<RequestBucket>>,
}

/// Whether the bucket at each index is held by the matrix (not leased out).
pub open spec fn all_present(slots: Seq<Option<RequestBucket>>, start: int, end: int) -> bool {
    forall|i: int| start <= i < end ==> (#[trigger] slots[i]) is Some
}

/// The buckets of `slots[start..end]`, all of which are present.
pub open spec fn unwrapped(slots: Seq<Option<RequestBucket>>, start: int, end: int) -> Seq<RequestBucket> {
    Seq::new((end - start) as nat, |k: int| slots[start + k]->0)
}

/// The first index in `[start, end)` whose bucket is leased out.
pub open spec fn first_absent(slots: Seq<Option<RequestBucket>>, start: int, end: int, index: int) -> bool {
    &&& start <= index < end
    &&& slots[index] is None
    &&& all_present(slots, start, index)
}

/// What the matrix holds after `lease`, taken for the window anchored at
/// `anchor` with reach `delta`, is put back: each bucket of the lease returns
/// to the index its offset names, where that index lies in the window; the
/// other indices keep what they held.
pub open spec fn released(
    slots: Seq<Option<RequestBucket>>,
    lease: OffsetView<RequestBucket>,
    anchor: int,
    delta: int,
) -> Seq<Option<RequestBucket>> {
    Seq::new(
        slots.len(),
        |i: int|
            if window_holds(slots.len() as int, anchor, delta, i - anchor) && lease.covers(i - anchor) {
                lease.get(i - anchor)
            } else {
                slots[i]
            },
    )
}

/// The slots a matrix holds once it has leased the window anchored at
/// `anchor` with reach `delta`: that window's buckets are gone, the rest stay.
pub open spec fn leased(slots: Seq<Option<RequestBucket>>, anchor: int, delta: int) -> Seq<Option<RequestBucket>> {
    let start = window_lo(anchor, delta);
    let end = start + clipped_window(slots, anchor, delta).items.len();
    Seq::new(slots.len(), |i: int| if start <= i < end { None } else { slots[i] })
}

/// The lease taken for the window anchored at `anchor` with reach `delta`.
pub open spec fn lease_of(slots: Seq<Option<RequestBucket>>, anchor: int, delta: int) -> OffsetView<RequestBucket> {
    let w = clipped_window(slots, anchor, delta);
    let start = window_lo(anchor, delta);
    OffsetView { limit: delta, first: w.first, items: unwrapped(slots, start, start + w.items.len()) }
}

/// Releasing a lease undoes taking it: when every bucket of a window is held,
/// leasing the window and releasing that lease gives back the matrix it was.
pub proof fn lemma_release_undoes_lease(slots: Seq<Option<RequestBucket>>, anchor: int, delta: int)
    requires
        anchor >= 0,
        delta >= 0,
        all_present(
            slots,
            window_lo(anchor, delta),
            window_lo(anchor, delta) + clipped_window(slots, anchor, delta).items.len(),
        ),
    ensures
        released(leased(slots, anchor, delta), lease_of(slots, anchor, delta), anchor, delta) == slots,
{
    let start = window_lo(anchor, delta);
    let len = visible_len(slots.len() as int, anchor, delta);
    lemma_clipped_window_items(slots, anchor, delta);
    let after = released(leased(slots, anchor, delta), lease_of(slots, anchor, delta), anchor, delta);
    let lease = lease_of(slots, anchor, delta);
    assert forall|i: int| 0 <= i < slots.len() implies #[trigger] after[i] == slots[i] by {
        let o = i - anchor;
        if start <= i < start + len {
            assert(lease.covers(o));
            assert(window_holds(slots.len() as int, anchor, delta, o));
            assert(lease.get(o) == Some(slots[i]->0));
        } else {
            if window_holds(slots.len() as int, anchor, delta, o) {
                assert(start <= i < start + len);
            }
        }
    }
    assert(after =~= slots);
}

impl View for RequestMatrix {
    type V = Seq<Option<RequestBucket>>;

    closed spec fn view(&self) -> Seq<Option<RequestBucket>> {
        self.buckets@
    }
}

impl RequestMatrix {
    pub fn new(bucket_count: usize, bucket_capacity: usize) -> (r: (RequestMatrix, Postbox))
        requires
            bucket_capacity > 0,
        ensures
            r.0@.len() == bucket_count,
            all_present(r.0@, 0, bucket_count as int),
            r.1.len() == bucket_count,
            r.1.pushes() == Seq::<(usize, MatchmakingRequest, bool)>::empty(),
    {
        let mut postbox: Vec<RingProducer> = Vec::with_capacity(bucket_count);
        let mut buckets: Vec<Option<RequestBucket>> = Vec::with_capacity(bucket_count);
        let mut i: usize = 0;
        while i < bucket_count
            invariant
                i <= bucket_count,
                bucket_capacity > 0,
                postbox@.len() == i,
                buckets@.len() == i,
                all_present(buckets@, 0, i as int),
            decreases bucket_count - i,
        {
            let (producer, consumer) = RingBuffer::new(bucket_capacity).split();
            postbox.push(producer);
            buckets.push(Some(RequestBucket(consumer, Ghost(Seq::empty()))));
            i = i + 1;
        }
        (RequestMatrix { buckets }, Postbox(postbox, Ghost(Seq::empty())))
    }

    /// Tries to lease a contiguous section of request buckets, clipped to the
    /// matrix. All or nothing: either the entire range is leased or nothing is
    /// leased at all; on failure the error names the first bucket of the range
    /// that is already leased out.
    pub fn try_lease_window(&mut self, anchor_index: usize, delta: usize) -> (r: Result<
        OffsetIndexedSlice<RequestBucket>,
        LeaseError,
    >)
        requires
            anchor_index <= i32::MAX,
            delta <= i32::MAX,
        ensures
            ({
                let w = clipped_window(old(self)@, anchor_index as int, delta as int);
                let start = window_lo(anchor_index as int, delta as int);
                let end = start + w.items.len();
                match r {
                    Ok(lease) => {
                        &&& all_present(old(self)@, start, end)
                        &&& lease@ == (OffsetView {
                            limit: delta as int,
                            first: w.first,
                            items: unwrapped(old(self)@, start, end),
                        })
                        &&& lease.base() >= 0
                        &&& final(self)@.len() == old(self)@.len()
                        &&& forall|i: int|
                            0 <= i < old(self)@.len() ==> #[trigger] final(self)@[i] == (if start <= i
                                < end {
                                None
                            } else {
                                old(self)@[i]
                            })
                    },
                    Err(LeaseError::ContentionError(index)) => {
                        &&& first_absent(old(self)@, start, end, index as int)
                        &&& final(self)@ == old(self)@
                    },
                }
            }),
    {
        let ghost slots = self.buckets@;
        let (start, end) = clipped_range(self.buckets.len(), anchor_index, delta);
        proof { crate::matchmaking::utils::lemma_clipped_window_items(slots, anchor_index as int, delta as int); }
        // Find the first bucket of the window that is leased out.
        let mut i: usize = start;
        while i < end
            invariant
                start <= i <= end <= slots.len(),
                start < end ==> start == window_lo(anchor_index as int, delta as int),
                end - start == visible_len(slots.len() as int, anchor_index as int, delta as int),
                self.buckets@ == slots,
                all_present(slots, start as int, i as int),
            decreases end - i,
        {
            if self.buckets[i].is_none() {
                return Err(LeaseError::ContentionError(i));
            }
            i = i + 1;
        }
        // Take every bucket of the window.
        let mut taken: Vec<RequestBucket> = Vec::with_capacity(end - start);
        let mut j: usize = start;
        while j < end
            invariant
                start <= j <= end <= slots.len(),
                start < end ==> start == window_lo(anchor_index as int, delta as int),
                end - start == visible_len(slots.len() as int, anchor_index as int, delta as int),
                self.buckets@.len() == slots.len(),
                all_present(slots, start as int, end as int),
                taken@.len() == j - start,
                forall|k: int| 0 <= k < j - start ==> #[trigger] taken@[k] == slots[start + k]->0,
                forall|k: int| 0 <= k < slots.len() ==> #[trigger] self.buckets@[k] == (if start <= k < j {
                    None
                } else {
                    slots[k]
                }),
            decreases end - j,
        {
            let bucket = self.buckets[j].take();
            proof { assert(bucket == slots[j as int]); }
            taken.push(bucket.unwrap());
            j = j + 1;
        }
        proof {
            assert(taken@ =~= unwrapped(
                slots,
                window_lo(anchor_index as int, delta as int),
                window_lo(anchor_index as int, delta as int) + visible_len(slots.len() as int, anchor_index as int, delta as int),
            ));
        }
        let len = self.buckets.len();
        Ok(OffsetIndexedSlice::from_visible(taken, len, anchor_index, delta))
    }

    /// Puts the buckets of a lease taken for the window anchored at
    /// `anchor_index` with reach `delta` back into the matrix.
    pub fn release(&mut self, buckets: OffsetIndexedSlice<RequestBucket>, anchor_index: usize, delta: usize)
        requires
            buckets.base() >= 0,
            anchor_index <= i32::MAX,
            delta <= i32::MAX,
        ensures
            final(self)@ == released(old(self)@, buckets@, anchor_index as int, delta as int),
    {
        let ghost slots = self.buckets@;
        let ghost lease = buckets@;
        let first = buckets.first_offset();
        let items = buckets.into_vec();
        let len = self.buckets.len();
        let anchor = anchor_index as i64;
        let reach = delta as i64;
        let mut k: i64 = 0;
        for item in it: items
            invariant
                k == it.index(),
                anchor_index <= i32::MAX,
                delta <= i32::MAX,
                lease.wf(),
                lease.limit <= i32::MAX,
                it.seq() == lease.items,
                lease.items.len() > 0 ==> first == lease.first,
                -(i32::MAX as int) - 1 <= first <= i32::MAX,
                anchor == anchor_index,
                reach == delta,
                len == slots.len(),
                self.buckets@.len() == len,
                forall|i: int|
                    0 <= i < len ==> #[trigger] self.buckets@[i] == (if window_holds(
                        len as int,
                        anchor as int,
                        reach as int,
                        i - anchor,
                    ) && lease.covers(i - anchor) && i - anchor < first + it.index() {
                        lease.get(i - anchor)
                    } else {
                        slots[i]
                    }),
        {
            proof { assert(item == lease.items[k as int]); }
            let offset = first + k;
            let index = anchor + offset;
            if -reach <= offset && offset <= reach && 0 <= index && (index as usize) < len {
                self.buckets.set(index as usize, Some(item));
            }
            k = k + 1;
        }
        proof {
            assert(self.buckets@ =~= released(slots, lease, anchor_index as int, delta as int));
        }
    }
}

#[derive(Clone, Debug)]
pub enum LeaseError {
    ContentionError(usize),
}

#[derive(Clone, Copy, Debug)]
pub enum PostError {
    BucketFull(usize, MatchmakingRequest),
    InvalidIndex(usize),
}

/// The producer halves of the buckets, one per bucket index, and a record of
/// every push made through them: the bucket, the request handed to it, and
/// whether the bucket took it.
pub struct Postbox(Vec<RingProducer>, Ghost<Seq<(usize, MatchmakingRequest, bool)>>);

impl Postbox {
    pub closed spec fn len(&self) -> nat {
        self.0@.len()
    }

    /// Every push made through the postbox, in order: the bucket, the request
    /// handed to it, and whether the bucket took it.
    pub closed spec fn pushes(&self) -> Seq<(usize, MatchmakingRequest, bool)> {
        self.1@
    }

    /// Posts `request` into bucket `index`.
    pub fn try_post(&mut self, index: usize, request: MatchmakingRequest) -> (r: Result<(), PostError>)
        ensures
            final(self).len() == old(self).len(),
            index >= old(self).len() ==> r == Err::<(), PostError>(PostError::InvalidIndex(index)),
            index < old(self).len() ==> r matches Ok(()) || r == Err::<(), PostError>(
                PostError::BucketFull(index, request),
            ),
            index >= old(self).len() ==> final(self).pushes() == old(self).pushes(),
            index < old(self).len() ==> final(self).pushes() == old(self).pushes().push((index, request, r is Ok)),
    {
        if index >= self.0.len() {
            return Err(PostError::InvalidIndex(index));
        }
        let mut producer = self.0.remove(index);
        let result = producer.try_push(request);
        self.0.insert(index, producer);
        self.1 = Ghost(self.1@.push((index, request, result is Ok)));
        match result {
            Ok(()) => Ok(()),
            Err(returned) => Err(PostError::BucketFull(index, returned)),
        }
    }
}

/// The consumer half of a bucket, and a record of every pop made from it:
/// what came back, in order.
pub struct RequestBucket(RingConsumer, Ghost<Seq<Option<MatchmakingRequest>>>);

impl RequestBucket {
    /// Every pop made from the bucket, in order: what came back.
    pub closed spec fn pops(&self) -> Seq<Option<MatchmakingRequest>> {
        self.1@
    }

    pub fn try_peek(&self) -> Option<&MatchmakingRequest> {
        self.0.try_peek()
    }

    /// Removes the bucket's oldest request, if any; the pop is recorded.
    pub fn try_pop(&mut self) -> (r: Option<MatchmakingRequest>)
        ensures
            final(self).pops() == old(self).pops().push(r),
    {
        let r = self.0.try_pop();
        self.1 = Ghost(self.1@.push(r));
        r
    }
}

} // verus!
