//! Leases holding the consumer halves of a window of buckets.

use vstd::prelude::*;

use crate::generator::generator::MatchmakingRequest;
use crate::matchmaking::scheduling::request_matrix::{
    all_present, first_absent, lease_of, leased, LeaseError, RequestBucket, RequestMatrix,
};
use crate::matchmaking::utils::{clipped_window, window_lo, OffsetIndexedSlice, OffsetView};

verus! {

pub struct Lease {
    buckets: OffsetIndexedSlice<RequestBucket>,
    /// Every pop made through the lease, in order: the offset asked for and
    /// what came back.
    pops: Ghost<Seq<(int, Option<MatchmakingRequest>)>>,
}

impl View for Lease {
    type V = OffsetView<RequestBucket>;

    closed spec fn view(&self) -> OffsetView<RequestBucket> {
        self.buckets@
    }
}

impl Lease {
    /// Every pop made through the lease, in order: the offset asked for and
    /// what came back.
    pub closed spec fn pops(&self) -> Seq<(int, Option<MatchmakingRequest>)> {
        self.pops@
    }

    #[verifier::type_invariant]
    spec fn inv(self) -> bool {
        self.buckets.base() >= 0
    }

    /// Leases the window of buckets anchored at `anchor_index` with reach
    /// `delta`, all or nothing.
    pub fn try_acquire(request_matrix: &mut RequestMatrix, anchor_index: usize, delta: usize) -> (r:
        Result<Lease, LeaseError>)
        requires
            anchor_index <= i32::MAX,
            delta <= i32::MAX,
        ensures
            ({
                let w = clipped_window(old(request_matrix)@, anchor_index as int, delta as int);
                let start = window_lo(anchor_index as int, delta as int);
                let end = start + w.items.len();
                match r {
                    Ok(lease) => {
                        &&& all_present(old(request_matrix)@, start, end)
                        &&& lease@ == lease_of(old(request_matrix)@, anchor_index as int, delta as int)
                        &&& lease.pops() == Seq::<(int, Option<MatchmakingRequest>)>::empty()
                        &&& final(request_matrix)@ == leased(old(request_matrix)@, anchor_index as int, delta as int)
                    },
                    Err(LeaseError::ContentionError(index)) => {
                        &&& first_absent(old(request_matrix)@, start, end, index as int)
                        &&& final(request_matrix)@ == old(request_matrix)@
                    },
                }
            }),
    {
        let ghost slots = request_matrix@;
        let guards = request_matrix.try_lease_window(anchor_index, delta)?;
        proof {
            assert(request_matrix@ =~= leased(slots, anchor_index as int, delta as int));
        }
        Ok(Lease { buckets: guards, pops: Ghost(Seq::empty()) })
    }

    /// The oldest request of the bucket at `offset`; `None` where the lease
    /// holds no bucket.
    pub fn try_peek(&self, offset: i32) -> (r: Option<&MatchmakingRequest>)
        ensures
            self@.get(offset as int) is None ==> r is None,
    {
        match self.buckets.get_offset(offset) {
            Some(bucket) => bucket.try_peek(),
            None => None,
        }
    }

    /// Removes the oldest request of the bucket at `offset`; `None` where the
    /// lease holds no bucket.
    pub fn try_pop(&mut self, offset: i32) -> (r: Option<MatchmakingRequest>)
        ensures
            old(self)@.get(offset as int) is None ==> r is None,
            final(self)@.limit == old(self)@.limit,
            final(self)@.first == old(self)@.first,
            final(self)@.items.len() == old(self)@.items.len(),
            final(self).pops() == old(self).pops().push((offset as int, r)),
            // The pop is one made from the bucket at `offset`, and only that
            // bucket changes.
            match old(self)@.get(offset as int) {
                None => r is None && final(self)@ == old(self)@,
                Some(bucket) => final(self)@.get(offset as int) matches Some(after) && after.pops() == bucket.pops().push(r)
                    && final(self)@.items == old(self)@.items.update(offset - old(self)@.first, after),
            },
    {
        proof { use_type_invariant(&*self); }
        let r = match self.buckets.get_offset_mut(offset) {
            Some(bucket) => bucket.try_pop(),
            None => None,
        };
        self.pops = Ghost(self.pops@.push((offset as int, r)));
        r
    }

    pub fn into_buckets(self) -> (r: OffsetIndexedSlice<RequestBucket>)
        ensures
            r@ == self@,
            r.base() >= 0,
    {
        proof { use_type_invariant(&self); }
        self.buckets
    }
}

} // verus!
