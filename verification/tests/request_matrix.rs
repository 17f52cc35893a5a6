use rt_matchmaking::matchmaking::scheduling::request_matrix::{LeaseError, PostError, RequestMatrix};
use rt_matchmaking::prelude::MatchmakingRequest;

fn request(request_id: u32, skill_rating: u32) -> MatchmakingRequest {
    MatchmakingRequest {
        request_id,
        skill_rating,
        submission_timestamp: request_id as u64 * 1_000_000_000,
    }
}

#[test]
fn posting_and_popping_preserves_fifo_order() {
    let (mut request_matrix, mut postbox) = RequestMatrix::new(2, 2);

    postbox.try_post(1, request(1, 100)).unwrap();
    postbox.try_post(1, request(2, 100)).unwrap();

    let mut lease = request_matrix.try_lease_window(1, 0).unwrap();
    let bucket = lease.get_offset_mut(0).unwrap();

    assert_eq!(bucket.try_peek().unwrap().request_id, 1);
    assert_eq!(bucket.try_pop().unwrap().request_id, 1);
    assert_eq!(bucket.try_pop().unwrap().request_id, 2);
    assert!(bucket.try_pop().is_none());
}

#[test]
fn leasing_window_clips_at_queue_edges() {
    let (mut request_matrix, _) = RequestMatrix::new(3, 1);

    let lease = request_matrix.try_lease_window(0, 2).unwrap();

    assert!(lease.get_offset(-1).is_none());
    assert!(lease.get_offset(0).is_some());
    assert!(lease.get_offset(1).is_some());
    assert!(lease.get_offset(2).is_some());
    assert!(lease.get_offset(3).is_none());
}

#[test]
fn lease_reports_the_blocking_bucket() {
    let (mut request_matrix, _) = RequestMatrix::new(3, 1);

    let _held = request_matrix.try_lease_window(1, 0).unwrap();

    assert!(matches!(request_matrix.try_lease_window(0, 1), Err(LeaseError::ContentionError(1))));
}

#[test]
fn postbox_rejects_full_and_invalid_buckets() {
    let (_, mut postbox) = RequestMatrix::new(1, 1);

    postbox.try_post(0, request(1, 100)).unwrap();

    assert!(matches!(postbox.try_post(0, request(2, 100)), Err(PostError::BucketFull(0, _))));
    assert!(matches!(postbox.try_post(2, request(3, 100)), Err(PostError::InvalidIndex(2))));
}

#[test]
fn release_then_reacquire_preserves_remaining_items() {
    let (mut request_matrix, mut postbox) = RequestMatrix::new(3, 4);

    postbox.try_post(0, request(1, 100)).unwrap();
    postbox.try_post(0, request(2, 100)).unwrap();

    let mut guards = request_matrix.try_lease_window(0, 0).unwrap();
    assert_eq!(guards.get_offset(0).unwrap().try_peek().unwrap().request_id, 1);
    guards.get_offset_mut(0).unwrap().try_pop().unwrap();

    request_matrix.release(guards, 0, 0);

    let mut guards = request_matrix.try_lease_window(0, 0).unwrap();
    assert_eq!(guards.get_offset(0).unwrap().try_peek().unwrap().request_id, 2);
    assert_eq!(guards.get_offset_mut(0).unwrap().try_pop().unwrap().request_id, 2);
}

#[test]
fn post_during_lease_visible_after_release() {
    let (mut request_matrix, mut postbox) = RequestMatrix::new(2, 4);

    postbox.try_post(0, request(1, 100)).unwrap();

    let guards = request_matrix.try_lease_window(0, 0).unwrap();

    postbox.try_post(0, request(2, 100)).unwrap();

    request_matrix.release(guards, 0, 0);

    let mut guards = request_matrix.try_lease_window(0, 0).unwrap();
    assert_eq!(guards.get_offset(0).unwrap().try_peek().unwrap().request_id, 1);
    assert_eq!(guards.get_offset_mut(0).unwrap().try_pop().unwrap().request_id, 1);
    assert_eq!(guards.get_offset_mut(0).unwrap().try_pop().unwrap().request_id, 2);
}

#[test]
fn release_frees_bucket_for_reacquisition() {
    let (mut request_matrix, _) = RequestMatrix::new(1, 2);

    let guards = request_matrix.try_lease_window(0, 0).unwrap();
    assert!(matches!(request_matrix.try_lease_window(0, 0), Err(LeaseError::ContentionError(0))));

    request_matrix.release(guards, 0, 0);

    assert!(request_matrix.try_lease_window(0, 0).is_ok());
}

#[test]
fn release_across_wide_window_preserves_all_buckets() {
    let (mut request_matrix, mut postbox) = RequestMatrix::new(5, 4);

    postbox.try_post(0, request(1, 100)).unwrap();
    postbox.try_post(2, request(3, 250)).unwrap();
    postbox.try_post(4, request(5, 450)).unwrap();

    let mut guards = request_matrix.try_lease_window(2, 2).unwrap();

    assert!(guards.get_offset(0).unwrap().try_peek().is_some());
    guards.get_offset_mut(0).unwrap().try_pop().unwrap();

    request_matrix.release(guards, 2, 2);

    let guards = request_matrix.try_lease_window(2, 2).unwrap();
    assert!(guards.get_offset(0).unwrap().try_peek().is_none());
    assert!(guards.get_offset(-2).unwrap().try_peek().is_some());
    assert_eq!(guards.get_offset(2).unwrap().try_peek().unwrap().request_id, 5);
}

#[test]
fn failed_lease_takes_nothing() {
    let (mut request_matrix, _) = RequestMatrix::new(4, 1);

    let held = request_matrix.try_lease_window(3, 0).unwrap();

    // the window 1..=3 is blocked at 3; buckets 1 and 2 stay with the matrix
    assert!(matches!(request_matrix.try_lease_window(2, 1), Err(LeaseError::ContentionError(3))));
    assert!(request_matrix.try_lease_window(1, 1).is_ok());

    request_matrix.release(held, 3, 0);
}
