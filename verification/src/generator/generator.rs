//! Matchmaking requests.

use vstd::prelude::*;

verus! {

/// A player's request to be matched. Timestamps are nanoseconds since the
/// Unix epoch.
#[derive(Debug, Clone, Copy, PartialEq, Eq)]
pub struct MatchmakingRequest {
    pub request_id: u32,
    pub skill_rating: u32,
    pub submission_timestamp: u64,
}

/// Numbers the requests that one generator samples: the n-th request gets id
/// n, so ids never repeat within a generator.
pub struct RequestNumbering {
    generated_sample_count: u32,
}

impl RequestNumbering {
    /// How many requests have been numbered so far.
    pub closed spec fn issued(&self) -> nat {
        self.generated_sample_count as nat
    }

    pub fn new() -> (numbering: RequestNumbering)
        ensures
            numbering.issued() == 0,
    {
        RequestNumbering { generated_sample_count: 0 }
    }

    /// How many requests have been numbered so far.
    pub fn generated_sample_count(&self) -> (count: u32)
        ensures
            count == self.issued(),
    {
        self.generated_sample_count
    }

    /// The next request, carrying the next id.
    pub fn next_request(&mut self, skill_rating: u32, submission_timestamp: u64) -> (request: MatchmakingRequest)
        requires
            old(self).issued() < u32::MAX,
        ensures
            final(self).issued() == old(self).issued() + 1,
            request.request_id == final(self).issued(),
            request.skill_rating == skill_rating,
            request.submission_timestamp == submission_timestamp,
    {
        self.generated_sample_count = self.generated_sample_count + 1;
        MatchmakingRequest { request_id: self.generated_sample_count, skill_rating, submission_timestamp }
    }

    /// One request per rating, in order, all submitted at
    /// `submission_timestamp`; their ids follow those already issued.
    pub fn number_batch(&mut self, skill_ratings: &Vec<u32>, submission_timestamp: u64) -> (batch: Vec<
        MatchmakingRequest,
    >)
        requires
            old(self).issued() + skill_ratings@.len() <= u32::MAX,
        ensures
            final(self).issued() == old(self).issued() + skill_ratings@.len(),
            batch@.len() == skill_ratings@.len(),
            forall|i: int|
                0 <= i < batch@.len() ==> {
                    &&& (#[trigger] batch@[i]).request_id == old(self).issued() + i + 1
                    &&& batch@[i].skill_rating == skill_ratings@[i]
                    &&& batch@[i].submission_timestamp == submission_timestamp
                },
    {
        let mut batch: Vec<MatchmakingRequest> = Vec::with_capacity(skill_ratings.len());
        let mut i: usize = 0;
        while i < skill_ratings.len()
            invariant
                i <= skill_ratings@.len(),
                self.issued() == old(self).issued() + i,
                old(self).issued() + skill_ratings@.len() <= u32::MAX,
                batch@.len() == i,
                forall|j: int|
                    0 <= j < i ==> {
                        &&& (#[trigger] batch@[j]).request_id == old(self).issued() + j + 1
                        &&& batch@[j].skill_rating == skill_ratings@[j]
                        &&& batch@[j].submission_timestamp == submission_timestamp
                    },
            decreases skill_ratings@.len() - i,
        {
            let request = self.next_request(skill_ratings[i], submission_timestamp);
            batch.push(request);
            i = i + 1;
        }
        batch
    }
}

/// Ids never repeat within one generator: two batches numbered one after
/// the other (the first after `start` ids were issued) carry, together, no
/// id twice.
pub proof fn lemma_request_ids_unique(earlier: Seq<MatchmakingRequest>, later: Seq<MatchmakingRequest>, start: nat)
    requires
        forall|i: int| 0 <= i < earlier.len() ==> (#[trigger] earlier[i]).request_id == start + i + 1,
        forall|i: int| 0 <= i < later.len() ==> (#[trigger] later[i]).request_id == start + earlier.len() + i + 1,
    ensures
        forall|i: int, j: int|
            0 <= i < j < (earlier + later).len() ==> (#[trigger] (earlier + later)[i]).request_id
                != (#[trigger] (earlier + later)[j]).request_id,
{
    let all = earlier + later;
    assert forall|i: int| 0 <= i < all.len() implies (#[trigger] all[i]).request_id == start + i + 1 by {
        if i >= earlier.len() {
            assert(all[i] == later[i - earlier.len()]);
        }
    }
}

} // verus!
