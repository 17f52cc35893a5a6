//! Parameters of a matchmaking queue.

use vstd::prelude::*;

verus! {

/// The values that a queue's parameters hold. Durations are in nanoseconds.
pub struct QueueParametersView {
    pub skill_rating_range: u32,
    pub requests_per_matching: usize,
    pub bucket_width: u32,
    pub bucket_capacity: usize,
    pub expected_time_to_matching: u64,
    pub delta_ceiling: usize,
}

/// The documented defaults: ratings in [0, 2500] split into buckets of 50
/// holding up to 1000 requests each, matches of 10, a 3 minute target wait,
/// and windows reaching at most 5 buckets to either side of their anchor.
pub open spec fn default_parameters() -> QueueParametersView {
    QueueParametersView {
        skill_rating_range: 2500,
        requests_per_matching: 10,
        bucket_width: 50,
        bucket_capacity: 1000,
        expected_time_to_matching: 180_000_000_000,
        delta_ceiling: 5,
    }
}

/// Parameters a queue can run with: nothing is zero, and the rating range
/// splits into whole buckets.
pub open spec fn valid_parameters(p: QueueParametersView) -> bool {
    &&& p.skill_rating_range > 0
    &&& p.requests_per_matching > 0
    &&& p.bucket_width > 0
    &&& p.bucket_capacity > 0
    &&& p.expected_time_to_matching > 0
    &&& p.skill_rating_range % p.bucket_width == 0
}

/// The first rule that `p` breaks, in the order the builder checks them.
pub open spec fn first_violation(p: QueueParametersView) -> Option<MatchmakingQueueParametersBuildError> {
    if p.skill_rating_range == 0 {
        Some(MatchmakingQueueParametersBuildError::ZeroSkillRatingRange)
    } else if p.requests_per_matching == 0 {
        Some(MatchmakingQueueParametersBuildError::ZeroRequestsPerMatching)
    } else if p.bucket_width == 0 {
        Some(MatchmakingQueueParametersBuildError::ZeroBucketWidth)
    } else if p.bucket_capacity == 0 {
        Some(MatchmakingQueueParametersBuildError::ZeroBucketCapacity)
    } else if p.expected_time_to_matching == 0 {
        Some(MatchmakingQueueParametersBuildError::ZeroExpectedTimeToMatching)
    } else if p.skill_rating_range % p.bucket_width != 0 {
        Some(MatchmakingQueueParametersBuildError::UnalignedBucketWidth)
    } else {
        None
    }
}

/// Parameters of a matchmaking queue.
#[derive(Debug, Clone, Copy)]
pub struct MatchmakingQueueParameters {
    skill_rating_range: u32,
    requests_per_matching: usize,
    bucket_width: u32,
    bucket_capacity: usize,
    expected_time_to_matching: u64,
    delta_ceiling: usize,
}

impl View for MatchmakingQueueParameters {
    type V = QueueParametersView;

    closed spec fn view(&self) -> QueueParametersView {
        QueueParametersView {
            skill_rating_range: self.skill_rating_range,
            requests_per_matching: self.requests_per_matching,
            bucket_width: self.bucket_width,
            bucket_capacity: self.bucket_capacity,
            expected_time_to_matching: self.expected_time_to_matching,
            delta_ceiling: self.delta_ceiling,
        }
    }
}

impl MatchmakingQueueParameters {
    #[verifier::type_invariant]
    spec fn inv(self) -> bool {
        valid_parameters(self@)
    }

    pub fn builder() -> (b: MatchmakingQueueParametersBuilder)
        ensures
            b@ == default_parameters(),
    {
        MatchmakingQueueParametersBuilder::default()
    }

    pub fn skill_rating_range(&self) -> (r: u32)
        ensures
            r == self@.skill_rating_range,
            valid_parameters(self@),
    {
        proof { use_type_invariant(self); }
        self.skill_rating_range
    }

    pub fn requests_per_matching(&self) -> (r: usize)
        ensures
            r == self@.requests_per_matching,
            valid_parameters(self@),
    {
        proof { use_type_invariant(self); }
        self.requests_per_matching
    }

    pub fn bucket_width(&self) -> (r: u32)
        ensures
            r == self@.bucket_width,
            valid_parameters(self@),
    {
        proof { use_type_invariant(self); }
        self.bucket_width
    }

    pub fn bucket_capacity(&self) -> (r: usize)
        ensures
            r == self@.bucket_capacity,
            valid_parameters(self@),
    {
        proof { use_type_invariant(self); }
        self.bucket_capacity
    }

    pub fn expected_time_to_matching(&self) -> (r: u64)
        ensures
            r == self@.expected_time_to_matching,
            valid_parameters(self@),
    {
        proof { use_type_invariant(self); }
        self.expected_time_to_matching
    }

    pub fn delta_ceiling(&self) -> (r: usize)
        ensures
            r == self@.delta_ceiling,
            valid_parameters(self@),
    {
        proof { use_type_invariant(self); }
        self.delta_ceiling
    }

    pub fn bucket_count(&self) -> (r: usize)
        ensures
            r == self@.skill_rating_range / self@.bucket_width,
            valid_parameters(self@),
    {
        proof { use_type_invariant(self); }
        (self.skill_rating_range / self.bucket_width) as usize
    }
}

#[derive(Debug, Clone, Copy, PartialEq, Eq)]
pub enum MatchmakingQueueParametersBuildError {
    ZeroSkillRatingRange,
    ZeroRequestsPerMatching,
    ZeroBucketWidth,
    ZeroBucketCapacity,
    ZeroExpectedTimeToMatching,
    UnalignedBucketWidth,
}

#[derive(Debug, Clone, Copy)]
pub struct MatchmakingQueueParametersBuilder {
    skill_rating_range: u32,
    requests_per_matching: usize,
    bucket_width: u32,
    bucket_capacity: usize,
    expected_time_to_matching: u64,
    delta_ceiling: usize,
}

impl View for MatchmakingQueueParametersBuilder {
    type V = QueueParametersView;

    closed spec fn view(&self) -> QueueParametersView {
        QueueParametersView {
            skill_rating_range: self.skill_rating_range,
            requests_per_matching: self.requests_per_matching,
            bucket_width: self.bucket_width,
            bucket_capacity: self.bucket_capacity,
            expected_time_to_matching: self.expected_time_to_matching,
            delta_ceiling: self.delta_ceiling,
        }
    }
}

impl Default for MatchmakingQueueParametersBuilder {
    fn default() -> (b: Self)
        ensures
            b@ == default_parameters(),
    {
        MatchmakingQueueParametersBuilder {
            skill_rating_range: 2500,
            requests_per_matching: 10,
            bucket_width: 50,
            bucket_capacity: 1000,
            expected_time_to_matching: 180_000_000_000,
            delta_ceiling: 5,
        }
    }
}

impl MatchmakingQueueParametersBuilder {
    pub fn skill_rating_range(self, skill_rating_range: u32) -> (b: Self)
        ensures
            b@ == (QueueParametersView { skill_rating_range, ..self@ }),
    {
        MatchmakingQueueParametersBuilder { skill_rating_range, ..self }
    }

    pub fn requests_per_matching(self, requests_per_matching: usize) -> (b: Self)
        ensures
            b@ == (QueueParametersView { requests_per_matching, ..self@ }),
    {
        MatchmakingQueueParametersBuilder { requests_per_matching, ..self }
    }

    pub fn bucket_width(self, bucket_width: u32) -> (b: Self)
        ensures
            b@ == (QueueParametersView { bucket_width, ..self@ }),
    {
        MatchmakingQueueParametersBuilder { bucket_width, ..self }
    }

    pub fn bucket_capacity(self, bucket_capacity: usize) -> (b: Self)
        ensures
            b@ == (QueueParametersView { bucket_capacity, ..self@ }),
    {
        MatchmakingQueueParametersBuilder { bucket_capacity, ..self }
    }

    /// The target wait, in nanoseconds.
    pub fn expected_time_to_matching(self, expected_time_to_matching: u64) -> (b: Self)
        ensures
            b@ == (QueueParametersView { expected_time_to_matching, ..self@ }),
    {
        MatchmakingQueueParametersBuilder { expected_time_to_matching, ..self }
    }

    pub fn delta_ceiling(self, delta_ceiling: usize) -> (b: Self)
        ensures
            b@ == (QueueParametersView { delta_ceiling, ..self@ }),
    {
        MatchmakingQueueParametersBuilder { delta_ceiling, ..self }
    }

    /// The parameters, or the first rule they break.
    pub fn build(self) -> (r: Result<MatchmakingQueueParameters, MatchmakingQueueParametersBuildError>)
        ensures
            match first_violation(self@) {
                Some(e) => r == Err::<MatchmakingQueueParameters, _>(e),
                None => r matches Ok(p) && p@ == self@,
            },
            r is Ok <==> valid_parameters(self@),
    {
        if self.skill_rating_range == 0 {
            return Err(MatchmakingQueueParametersBuildError::ZeroSkillRatingRange);
        }
        if self.requests_per_matching == 0 {
            return Err(MatchmakingQueueParametersBuildError::ZeroRequestsPerMatching);
        }
        if self.bucket_width == 0 {
            return Err(MatchmakingQueueParametersBuildError::ZeroBucketWidth);
        }
        if self.bucket_capacity == 0 {
            return Err(MatchmakingQueueParametersBuildError::ZeroBucketCapacity);
        }
        if self.expected_time_to_matching == 0 {
            return Err(MatchmakingQueueParametersBuildError::ZeroExpectedTimeToMatching);
        }
        if self.skill_rating_range % self.bucket_width != 0 {
            return Err(MatchmakingQueueParametersBuildError::UnalignedBucketWidth);
        }
        Ok(
            MatchmakingQueueParameters {
                skill_rating_range: self.skill_rating_range,
                requests_per_matching: self.requests_per_matching,
                bucket_width: self.bucket_width,
                bucket_capacity: self.bucket_capacity,
                expected_time_to_matching: self.expected_time_to_matching,
                delta_ceiling: self.delta_ceiling,
            },
        )
    }
}

} // verus!
