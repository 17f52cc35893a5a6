use rt_matchmaking::matchmaking::config::{
    MatchmakingQueueParameters, MatchmakingQueueParametersBuildError, MatchmakingQueueParametersBuilder,
};

const MINUTE: u64 = 60_000_000_000;

#[test]
fn builder_uses_documented_defaults() {
    let config = MatchmakingQueueParameters::builder().build().unwrap();

    assert_eq!(config.skill_rating_range(), 2500);
    assert_eq!(config.requests_per_matching(), 10);
    assert_eq!(config.bucket_width(), 50);
    assert_eq!(config.bucket_capacity(), 1000);
    assert_eq!(config.expected_time_to_matching(), 3 * MINUTE);
    assert_eq!(config.delta_ceiling(), 5);
    assert_eq!(config.bucket_count(), 50);
}

#[test]
fn builder_rejects_zero_and_misaligned_values() {
    assert_eq!(
        MatchmakingQueueParameters::builder().bucket_width(0).build().unwrap_err(),
        MatchmakingQueueParametersBuildError::ZeroBucketWidth
    );
    assert_eq!(
        MatchmakingQueueParameters::builder().expected_time_to_matching(0).build().unwrap_err(),
        MatchmakingQueueParametersBuildError::ZeroExpectedTimeToMatching
    );
    assert_eq!(
        MatchmakingQueueParameters::builder().skill_rating_range(2550).bucket_width(128).build().unwrap_err(),
        MatchmakingQueueParametersBuildError::UnalignedBucketWidth
    );
}

#[test]
fn builder_rejects_zero_skill_rating_range() {
    assert_eq!(
        MatchmakingQueueParameters::builder().skill_rating_range(0).build().unwrap_err(),
        MatchmakingQueueParametersBuildError::ZeroSkillRatingRange
    );
}

#[test]
fn builder_rejects_zero_requests_per_matching() {
    assert_eq!(
        MatchmakingQueueParameters::builder().requests_per_matching(0).build().unwrap_err(),
        MatchmakingQueueParametersBuildError::ZeroRequestsPerMatching
    );
}

#[test]
fn builder_rejects_zero_bucket_capacity() {
    assert_eq!(
        MatchmakingQueueParameters::builder().bucket_capacity(0).build().unwrap_err(),
        MatchmakingQueueParametersBuildError::ZeroBucketCapacity
    );
}

#[test]
fn builder_overrides_selected_fields() {
    let config = MatchmakingQueueParameters::builder()
        .skill_rating_range(3000)
        .bucket_width(100)
        .bucket_capacity(128)
        .requests_per_matching(5)
        .delta_ceiling(7)
        .build()
        .unwrap();

    assert_eq!(config.skill_rating_range(), 3000);
    assert_eq!(config.bucket_width(), 100);
    assert_eq!(config.bucket_capacity(), 128);
    assert_eq!(config.requests_per_matching(), 5);
    assert_eq!(config.delta_ceiling(), 7);
    assert_eq!(config.bucket_count(), 30);
}

#[test]
fn builder_reports_the_first_violation_in_check_order() {
    assert_eq!(
        MatchmakingQueueParametersBuilder::default()
            .skill_rating_range(0)
            .requests_per_matching(0)
            .bucket_width(0)
            .build()
            .unwrap_err(),
        MatchmakingQueueParametersBuildError::ZeroSkillRatingRange
    );
    assert_eq!(
        MatchmakingQueueParametersBuilder::default()
            .bucket_capacity(0)
            .bucket_width(7)
            .build()
            .unwrap_err(),
        MatchmakingQueueParametersBuildError::ZeroBucketCapacity
    );
}
