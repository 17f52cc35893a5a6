use rt_matchmaking::matchmaking::ground_allocation::{GroundAllocationControlSignals, GroundAllocator};
use rt_matchmaking::matchmaking::scheduling::leases::Lease;
use rt_matchmaking::matchmaking::scheduling::request_matrix::{Postbox, RequestMatrix};
use rt_matchmaking::matchmaking::scheduling::tickets::Ticket;
use rt_matchmaking::matchmaking::scheduling::Assigned;
use rt_matchmaking::matchmaking::utils::OffsetIndexedSlice;
use rt_matchmaking::prelude::MatchmakingRequest;

fn request(request_id: u32, skill_rating: u32) -> MatchmakingRequest {
    MatchmakingRequest {
        request_id,
        skill_rating,
        submission_timestamp: request_id as u64 * 1_000_000_000,
    }
}

fn populate_bucket(postbox: &mut Postbox, bucket: usize, count: usize) {
    for i in 0..count {
        postbox.try_post(bucket, request(i as u32 + 1, 100)).unwrap();
    }
}

fn make_assigned(matrix: &mut RequestMatrix, anchor: usize, delta: usize, eligible: &[usize]) -> Assigned {
    let lease = Lease::try_acquire(matrix, anchor, delta).unwrap();
    let window_eligible_request_counts = OffsetIndexedSlice::from_slice(eligible, anchor, delta).unwrap();
    let mut ticket = Ticket::new(anchor);
    ticket.set_delta(delta);
    Assigned {
        ticket,
        lease,
        ground_allocation_control_signals: GroundAllocationControlSignals {
            maximum_matchings: 1,
            requests_per_matching: 10,
            window_eligible_request_counts,
        },
    }
}

#[test]
fn anchor_local_allocation_produces_full_matches() {
    let (mut matrix, mut postbox) = RequestMatrix::new(3, 20);
    populate_bucket(&mut postbox, 1, 12);

    let assigned = make_assigned(&mut matrix, 1, 0, &[0, 12, 0]);
    let allocator = GroundAllocator::new(assigned);
    let (matchings, completed) = allocator.run_allocation();

    assert_eq!(matchings.len(), 1);
    assert_eq!(matchings[0].grouped_requests.len(), 10);
    assert_eq!(completed.local_feedback.successful_matchings, 1);
    assert_eq!(completed.local_feedback.furthest_bucket_distance, 0);
    assert_eq!(*completed.local_feedback.drained_counts.get_offset(0).unwrap(), 10);
}

#[test]
fn anchor_local_allocation_uses_only_anchor_bucket() {
    let (mut matrix, mut postbox) = RequestMatrix::new(5, 30);
    populate_bucket(&mut postbox, 2, 20);
    populate_bucket(&mut postbox, 1, 20);
    populate_bucket(&mut postbox, 3, 20);

    let assigned = make_assigned(&mut matrix, 2, 1, &[0, 20, 20, 20, 0]);
    let allocator = GroundAllocator::new(assigned);
    let (matchings, completed) = allocator.run_allocation();

    assert_eq!(matchings.len(), 1);
    assert_eq!(matchings[0].grouped_requests.len(), 10);
    assert_eq!(completed.local_feedback.successful_matchings, 1);
    assert_eq!(completed.local_feedback.furthest_bucket_distance, 0);
    assert_eq!(*completed.local_feedback.drained_counts.get_offset(0).unwrap(), 10);
    assert_eq!(*completed.local_feedback.drained_counts.get_offset(-1).unwrap(), 0);
    assert_eq!(*completed.local_feedback.drained_counts.get_offset(1).unwrap(), 0);
}

#[test]
fn widening_when_anchor_insufficient_for_full_match() {
    let (mut matrix, mut postbox) = RequestMatrix::new(5, 20);
    populate_bucket(&mut postbox, 2, 4);
    populate_bucket(&mut postbox, 1, 4);
    populate_bucket(&mut postbox, 3, 4);

    let assigned = make_assigned(&mut matrix, 2, 2, &[0, 4, 4, 4, 0]);
    let allocator = GroundAllocator::new(assigned);
    let (matchings, completed) = allocator.run_allocation();

    assert_eq!(matchings.len(), 1);
    assert_eq!(matchings[0].grouped_requests.len(), 10);
    assert_eq!(completed.local_feedback.successful_matchings, 1);
    assert!(completed.local_feedback.furthest_bucket_distance >= 1);
}

#[test]
fn no_widening_when_budget_exhausted_on_anchor_locally() {
    let (mut matrix, mut postbox) = RequestMatrix::new(3, 30);
    populate_bucket(&mut postbox, 1, 25);

    let mut assigned = make_assigned(&mut matrix, 1, 0, &[0, 25, 0]);
    assigned.ground_allocation_control_signals.maximum_matchings = 2;
    let allocator = GroundAllocator::new(assigned);
    let (matchings, completed) = allocator.run_allocation();

    assert_eq!(matchings.len(), 2);
    assert_eq!(completed.local_feedback.successful_matchings, 2);
    assert_eq!(completed.local_feedback.furthest_bucket_distance, 0);
}

#[test]
fn insufficient_requests_anywhere_produces_no_match() {
    let (mut matrix, mut postbox) = RequestMatrix::new(3, 10);
    populate_bucket(&mut postbox, 1, 5);

    let assigned = make_assigned(&mut matrix, 1, 1, &[0, 5, 0]);
    let allocator = GroundAllocator::new(assigned);
    let (matchings, completed) = allocator.run_allocation();

    assert!(matchings.is_empty());
    assert_eq!(completed.local_feedback.successful_matchings, 0);
    assert_eq!(completed.local_feedback.furthest_bucket_distance, 0);
}

#[test]
fn furthest_bucket_distance_reported_after_widening() {
    let (mut matrix, mut postbox) = RequestMatrix::new(7, 20);
    populate_bucket(&mut postbox, 3, 4);
    populate_bucket(&mut postbox, 5, 8);

    let assigned = make_assigned(&mut matrix, 3, 2, &[0, 0, 0, 4, 0, 8, 0]);
    let allocator = GroundAllocator::new(assigned);
    let (_matchings, completed) = allocator.run_allocation();

    assert_eq!(completed.local_feedback.successful_matchings, 1);
    assert_eq!(completed.local_feedback.furthest_bucket_distance, 2);
}

#[test]
fn drained_counts_accumulate_across_anchor_and_widening() {
    let (mut matrix, mut postbox) = RequestMatrix::new(5, 20);
    populate_bucket(&mut postbox, 2, 4);
    populate_bucket(&mut postbox, 1, 8);

    let assigned = make_assigned(&mut matrix, 2, 1, &[0, 8, 4, 0, 0]);
    let allocator = GroundAllocator::new(assigned);
    let (_matchings, completed) = allocator.run_allocation();

    assert_eq!(completed.local_feedback.successful_matchings, 1);
    let anchor_drained = *completed.local_feedback.drained_counts.get_offset(0).unwrap();
    let widened_drained = *completed.local_feedback.drained_counts.get_offset(-1).unwrap();
    assert_eq!(anchor_drained + widened_drained, 10);
}

#[test]
fn allocation_returns_ticket_with_remaining_data() {
    let (mut matrix, mut postbox) = RequestMatrix::new(3, 20);
    populate_bucket(&mut postbox, 1, 20);

    let assigned = make_assigned(&mut matrix, 1, 0, &[0, 20, 0]);
    let allocator = GroundAllocator::new(assigned);
    let (_matchings, completed) = allocator.run_allocation();

    let remaining = completed.lease.as_ref().unwrap().try_peek(0).unwrap();
    assert_eq!(remaining.request_id, 11);
}

#[test]
fn completion_timestamp_is_set_after_allocation() {
    let (mut matrix, mut postbox) = RequestMatrix::new(1, 20);
    populate_bucket(&mut postbox, 0, 10);

    let assigned = make_assigned(&mut matrix, 0, 0, &[10]);
    let allocator = GroundAllocator::new(assigned);
    let (_matchings, completed) = allocator.run_allocation();

    assert!(completed.local_feedback.completion_timestamp > 0);
}

#[test]
fn multi_match_run_produces_only_one_cross_bucket_match() {
    let (mut matrix, mut postbox) = RequestMatrix::new(3, 30);
    populate_bucket(&mut postbox, 0, 25);
    populate_bucket(&mut postbox, 1, 10);

    let mut assigned = make_assigned(&mut matrix, 0, 1, &[25, 10, 0]);
    assigned.ground_allocation_control_signals.maximum_matchings = 3;

    let allocator = GroundAllocator::new(assigned);
    let (matchings, completed) = allocator.run_allocation();

    // 2 anchor-local + 1 cross-bucket = 3
    assert_eq!(matchings.len(), 3);
    assert_eq!(completed.local_feedback.successful_matchings, 3);
    assert!(completed.local_feedback.furthest_bucket_distance > 0);
}

#[test]
fn widening_alternates_between_window_edges() {
    let (mut matrix, mut postbox) = RequestMatrix::new(3, 20);
    for i in 0..3 {
        postbox.try_post(0, request(100 + i, 50)).unwrap();
        postbox.try_post(1, request(200 + i, 150)).unwrap();
        postbox.try_post(2, request(300 + i, 250)).unwrap();
    }

    let mut assigned = make_assigned(&mut matrix, 1, 1, &[3, 3, 3]);
    assigned.ground_allocation_control_signals.requests_per_matching = 5;
    let (matchings, completed) = GroundAllocator::new(assigned).run_allocation();

    let ids: Vec<u32> = matchings[0].grouped_requests.iter().map(|r| r.request_id).collect();
    assert_eq!(ids, vec![200, 201, 202, 300, 100]);
    assert_eq!(completed.local_feedback.furthest_bucket_distance, 1);
    assert_eq!(*completed.local_feedback.drained_counts.get_offset(-1).unwrap(), 1);
    assert_eq!(*completed.local_feedback.drained_counts.get_offset(0).unwrap(), 3);
    assert_eq!(*completed.local_feedback.drained_counts.get_offset(1).unwrap(), 1);
}

#[test]
fn eligible_count_reads_the_window() {
    let signals = GroundAllocationControlSignals {
        maximum_matchings: 1,
        requests_per_matching: 10,
        window_eligible_request_counts: OffsetIndexedSlice::from_slice(&[4usize, 5, 6], 1, 1).unwrap(),
    };

    assert_eq!(signals.get_eligible_request_count(-1), Some(4));
    assert_eq!(signals.get_eligible_request_count(1), Some(6));
    assert_eq!(signals.get_eligible_request_count(2), None);
}
