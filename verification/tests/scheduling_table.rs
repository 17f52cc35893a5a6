use rt_matchmaking::matchmaking::config::MatchmakingQueueParameters;
use rt_matchmaking::matchmaking::ground_allocation::{GroundAllocationSessionSummary, GroundAllocator};
use rt_matchmaking::matchmaking::scheduling::leases::Lease;
use rt_matchmaking::matchmaking::scheduling::request_matrix::{PostError, RequestMatrix};
use rt_matchmaking::matchmaking::scheduling::Completed;
use rt_matchmaking::matchmaking::utils::OffsetIndexedSlice;
use rt_matchmaking::matchmaking::scheduling::scheduling_table::{
    backoff_deadline, step_reach, SchedulerBookkeeping, SchedulingPolicy, SchedulingTable,
};
use rt_matchmaking::matchmaking::scheduling::tickets::Ticket;
use rt_matchmaking::prelude::MatchmakingRequest;

const SECOND: u64 = 1_000_000_000;

/// Keeps every window's reach and backs off for ten seconds.
struct SteadyPolicy;

impl SchedulingPolicy for SteadyPolicy {
    fn record_new_request_batch(&mut self, _arrival_timestamp: u64, _batch_size: usize) {}

    fn record_new_assignment_batch(&mut self, _batch_size: usize) {}

    fn target_delta(
        &self,
        ticket: &Ticket,
        _bookkeeping: &SchedulerBookkeeping,
        _queue_parameters: &MatchmakingQueueParameters,
        _local_feedback: &GroundAllocationSessionSummary,
    ) -> usize {
        ticket.delta()
    }

    fn backoff_duration(
        &self,
        _ticket: &Ticket,
        _bookkeeping: &SchedulerBookkeeping,
        _queue_parameters: &MatchmakingQueueParameters,
        _local_feedback: &GroundAllocationSessionSummary,
    ) -> u64 {
        10 * SECOND
    }
}

/// Always asks for the widest window.
struct WideningPolicy;

impl SchedulingPolicy for WideningPolicy {
    fn record_new_request_batch(&mut self, _arrival_timestamp: u64, _batch_size: usize) {}

    fn record_new_assignment_batch(&mut self, _batch_size: usize) {}

    fn target_delta(
        &self,
        _ticket: &Ticket,
        _bookkeeping: &SchedulerBookkeeping,
        _queue_parameters: &MatchmakingQueueParameters,
        _local_feedback: &GroundAllocationSessionSummary,
    ) -> usize {
        usize::MAX
    }

    fn backoff_duration(
        &self,
        _ticket: &Ticket,
        _bookkeeping: &SchedulerBookkeeping,
        _queue_parameters: &MatchmakingQueueParameters,
        _local_feedback: &GroundAllocationSessionSummary,
    ) -> u64 {
        SECOND
    }
}

fn request(request_id: u32, skill_rating: u32) -> MatchmakingRequest {
    MatchmakingRequest {
        request_id,
        skill_rating,
        submission_timestamp: request_id as u64 * SECOND,
    }
}

fn test_queue_parameters() -> MatchmakingQueueParameters {
    MatchmakingQueueParameters::builder()
        .skill_rating_range(300)
        .bucket_width(100)
        .delta_ceiling(2)
        .build()
        .unwrap()
}

fn pipeline_queue_parameters() -> MatchmakingQueueParameters {
    MatchmakingQueueParameters::builder()
        .skill_rating_range(300)
        .bucket_width(100)
        .delta_ceiling(2)
        .bucket_capacity(50)
        .build()
        .unwrap()
}

fn new_table() -> SchedulingTable<SteadyPolicy> {
    SchedulingTable::new(test_queue_parameters(), SteadyPolicy)
}

#[test]
fn new_scheduler_has_no_immediately_assignable_work() {
    let mut table = new_table();

    assert!(table.next_assignment().is_none());
}

#[test]
fn posting_request_wakes_empty_ticket_and_snapshots_counts() {
    let mut table = new_table();

    table.post_request_batch(vec![request(1, 150)]).unwrap();

    let assigned = table.next_assignment().unwrap();

    assert_eq!(assigned.anchor_bucket_index(), 1);
    assert_eq!(assigned.delta(), 0);
    assert_eq!(assigned.ground_allocation_control_signals.window_eligible_request_counts.get_offset(0), Some(&1));
    assert_eq!(assigned.lease.try_peek(0).unwrap().request_id, 1);
}

#[test]
fn ready_queue_prefers_oldest_anchor_request() {
    let mut table = new_table();

    table.post_request_batch(vec![request(2, 150), request(1, 50)]).unwrap();

    let assigned = table.next_assignment().unwrap();

    assert_eq!(assigned.anchor_bucket_index(), 0);
    assert_eq!(assigned.lease.try_peek(0).unwrap().request_id, 1);
}

#[test]
fn successful_readmission_requeues_anchor_with_refreshed_head() {
    let mut table = new_table();
    let requests = (1..=20).map(|request_id| request(request_id, 50)).collect();

    table.post_request_batch(requests).unwrap();

    let completed = {
        let mut assigned = table.next_assignment().unwrap();
        assigned.ground_allocation_control_signals.maximum_matchings = 1;
        let allocator = GroundAllocator::new(assigned);
        let (_matchings, completed) = allocator.run_allocation();
        completed
    };

    table.readmit_completed(completed);

    let reassigned = table.next_assignment().unwrap();

    assert_eq!(reassigned.anchor_bucket_index(), 0);
    assert_eq!(reassigned.lease.try_peek(0).unwrap().request_id, 11);
}

#[test]
fn failed_readmission_waits_ticket_instead_of_immediate_reassignment() {
    let mut table = new_table();

    table.post_request_batch(vec![request(1, 50)]).unwrap();

    let completed = {
        let assigned = table.next_assignment().unwrap();
        let allocator = GroundAllocator::new(assigned);
        let (_matchings, completed) = allocator.run_allocation();
        completed
    };

    assert_eq!(completed.local_feedback.successful_matchings, 0);

    table.readmit_completed(completed);

    assert!(table.next_assignment().is_none());
}

#[test]
fn fully_drained_anchor_stays_empty_until_new_request_arrives() {
    let mut table = new_table();
    let requests = (1..=10).map(|request_id| request(request_id, 50)).collect();

    table.post_request_batch(requests).unwrap();

    let completed = {
        let mut assigned = table.next_assignment().unwrap();
        assigned.ground_allocation_control_signals.maximum_matchings = 1;
        let allocator = GroundAllocator::new(assigned);
        let (_matchings, completed) = allocator.run_allocation();
        completed
    };

    table.readmit_completed(completed);

    assert!(table.next_assignment().is_none());

    table.post_request_batch(vec![request(11, 50)]).unwrap();

    let reassigned = table.next_assignment().unwrap();
    assert_eq!(reassigned.anchor_bucket_index(), 0);
    assert_eq!(reassigned.lease.try_peek(0).unwrap().request_id, 11);
}

#[test]
fn successful_round_trip_requeues_remaining_anchor_work() {
    let mut table = new_table();
    let requests = (1..=20).map(|request_id| request(request_id, 50)).collect();

    table.post_request_batch(requests).unwrap();

    let (matchings, completed) = {
        let mut assigned = table.next_assignment().unwrap();
        assigned.ground_allocation_control_signals.maximum_matchings = 1;
        let allocator = GroundAllocator::new(assigned);
        allocator.run_allocation()
    };

    assert_eq!(matchings.len(), 1);
    assert_eq!(matchings[0].grouped_requests.len(), 10);

    table.readmit_completed(completed);

    let reassigned = table.next_assignment().unwrap();
    assert_eq!(reassigned.anchor_bucket_index(), 0);
    assert_eq!(reassigned.lease.try_peek(0).unwrap().request_id, 11);
}

#[test]
fn unsuccessful_round_trip_waits_ticket() {
    let mut table = new_table();

    table.post_request_batch(vec![request(1, 50)]).unwrap();

    let completed = {
        let assigned = table.next_assignment().unwrap();
        let allocator = GroundAllocator::new(assigned);
        let (_matchings, completed) = allocator.run_allocation();
        completed
    };

    assert_eq!(completed.local_feedback.successful_matchings, 0);

    table.readmit_completed(completed);

    assert!(table.next_assignment().is_none());
}

#[test]
fn drained_anchor_wakes_again_on_new_batch() {
    let mut table = new_table();
    let requests = (1..=10).map(|request_id| request(request_id, 50)).collect();

    table.post_request_batch(requests).unwrap();

    let completed = {
        let mut assigned = table.next_assignment().unwrap();
        assigned.ground_allocation_control_signals.maximum_matchings = 1;
        let allocator = GroundAllocator::new(assigned);
        let (_matchings, completed) = allocator.run_allocation();
        completed
    };

    table.readmit_completed(completed);

    assert!(table.next_assignment().is_none());

    table.post_request_batch(vec![request(11, 50)]).unwrap();

    let reassigned = table.next_assignment().unwrap();
    assert_eq!(reassigned.anchor_bucket_index(), 0);
    assert_eq!(reassigned.lease.try_peek(0).unwrap().request_id, 11);
}

#[test]
fn delta_persists_across_successful_matching_cycle() {
    let mut table = new_table();

    // post 20 requests to bucket 0: enough for 2 matches
    let requests: Vec<MatchmakingRequest> = (1..=20).map(|i| request(i, 50)).collect();
    table.post_request_batch(requests).unwrap();

    // set delta to 1 before first assignment to simulate prior resize
    {
        let mut assigned = table.next_assignment().unwrap();
        assigned.ticket.set_delta(1);
        assigned.ground_allocation_control_signals.maximum_matchings = 1;
        let allocator = GroundAllocator::new(assigned);
        let (_matchings, completed) = allocator.run_allocation();
        assert_eq!(completed.local_feedback.furthest_bucket_distance, 0);
        assert_eq!(completed.local_feedback.successful_matchings, 1);
        table.readmit_completed(completed);
    }

    // ticket should cycle back to ready and be reassignable
    let reassigned = table.next_assignment().unwrap();
    assert_eq!(reassigned.anchor_bucket_index(), 0);
    // remaining requests: request IDs 11..20
    assert_eq!(reassigned.lease.try_peek(0).unwrap().request_id, 11);
}

#[test]
fn priority_ordering_prefers_oldest_anchor_request() {
    let mut table = new_table();

    // bucket 0: request ID 1 (oldest)
    // bucket 1: request ID 2 (newer)
    table.post_request_batch(vec![request(1, 50), request(2, 150)]).unwrap();

    // bucket 0 has the oldest request → should be assigned first
    let assigned = table.next_assignment().unwrap();
    assert_eq!(assigned.anchor_bucket_index(), 0);
}

#[test]
fn residency_cycle_exhausts_bucket_then_goes_empty() {
    let mut table = SchedulingTable::new(pipeline_queue_parameters(), SteadyPolicy);

    // 30 requests to bucket 0 → should yield 3 matches (10 each) then empty
    let requests: Vec<MatchmakingRequest> = (1..=30).map(|i| request(i, 50)).collect();
    table.post_request_batch(requests).unwrap();

    // 1st match
    let completed = {
        let mut assigned = table.next_assignment().unwrap();
        assigned.ground_allocation_control_signals.maximum_matchings = 1;
        let allocator = GroundAllocator::new(assigned);
        let (matchings, completed) = allocator.run_allocation();
        assert_eq!(matchings.len(), 1);
        completed
    };
    assert_eq!(completed.local_feedback.successful_matchings, 1);
    table.readmit_completed(completed);

    // ticket should return to ready (anchor not empty)
    let reassigned = table.next_assignment();
    assert!(reassigned.is_some());

    // 2nd match
    let completed = {
        let mut assigned = reassigned.unwrap();
        assigned.ground_allocation_control_signals.maximum_matchings = 1;
        let allocator = GroundAllocator::new(assigned);
        let (matchings, completed) = allocator.run_allocation();
        assert_eq!(matchings.len(), 1);
        completed
    };
    assert_eq!(completed.local_feedback.successful_matchings, 1);
    table.readmit_completed(completed);

    // 3rd match — anchor now empty after 30 requests consumed
    let completed = {
        let mut assigned = table.next_assignment().unwrap();
        assigned.ground_allocation_control_signals.maximum_matchings = 1;
        let allocator = GroundAllocator::new(assigned);
        let (matchings, completed) = allocator.run_allocation();
        assert_eq!(matchings.len(), 1);
        completed
    };
    assert_eq!(completed.local_feedback.successful_matchings, 1);
    table.readmit_completed(completed);

    // anchor empty → no more assignments
    assert!(table.next_assignment().is_none());
}

#[test]
fn posting_out_of_range_rating_reports_invalid_index() {
    let mut table = new_table();

    let errors = table.post_request_batch(vec![request(1, 50), request(2, 450), request(3, 150)]).unwrap_err();

    assert_eq!(errors.len(), 1);
    assert!(matches!(errors[0], PostError::InvalidIndex(4)));
    let diagnostics = table.diagnostics();
    assert_eq!(diagnostics.per_bucket_request_count, vec![1, 1, 0]);
    assert_eq!(diagnostics.total_request_count, 3);
    assert_eq!(diagnostics.ready_count, 2);
    assert_eq!(diagnostics.empty_count, 1);
}

#[test]
fn posting_to_a_full_bucket_reports_bucket_full() {
    let parameters = MatchmakingQueueParameters::builder()
        .skill_rating_range(300)
        .bucket_width(100)
        .bucket_capacity(2)
        .build()
        .unwrap();
    let mut table = SchedulingTable::new(parameters, SteadyPolicy);

    let errors = table.post_request_batch(vec![request(1, 50), request(2, 60), request(3, 70)]).unwrap_err();

    assert_eq!(errors.len(), 1);
    assert!(matches!(errors[0], PostError::BucketFull(0, r) if r.request_id == 3));
    assert_eq!(table.diagnostics().per_bucket_request_count, vec![2, 0, 0]);
}

#[test]
fn partly_leased_window_makes_the_ticket_contend() {
    let mut table = SchedulingTable::new(test_queue_parameters(), WideningPolicy);
    let requests: Vec<MatchmakingRequest> = (1..=15).map(|i| request(i, 50)).chain((16..=20).map(|i| request(i, 150))).collect();
    table.post_request_batch(requests).unwrap();

    // bucket 0 goes first (oldest request); bucket 1 is then free
    let first = table.next_assignment().unwrap();
    assert_eq!(first.anchor_bucket_index(), 0);
    let second = table.next_assignment().unwrap();
    assert_eq!(second.anchor_bucket_index(), 1);

    // widen bucket 0's window to 1 by readmitting it after a session that reached its edge
    let mut first = first;
    first.ground_allocation_control_signals.maximum_matchings = 1;
    let (_matchings, completed) = GroundAllocator::new(first).run_allocation();
    assert_eq!(completed.local_feedback.furthest_bucket_distance, 0);
    table.readmit_completed(completed);

    // the readmitted ticket reaches bucket 1, which is leased out: it contends
    assert!(table.next_assignment().is_none());
    let diagnostics = table.diagnostics();
    assert_eq!(diagnostics.contended_count, 1);
    assert_eq!(diagnostics.contention_lane_view, vec![vec![], vec![0], vec![]]);
    assert_eq!(diagnostics.assigned_count, 1);

    // releasing bucket 1 readies the contender
    let (_matchings, completed) = GroundAllocator::new(second).run_allocation();
    table.readmit_completed(completed);
    let diagnostics = table.diagnostics();
    assert_eq!(diagnostics.contended_count, 0);
    assert_eq!(diagnostics.assigned_count, 0);
    let next = table.next_assignment().unwrap();
    assert_eq!(next.anchor_bucket_index(), 0);
    assert_eq!(next.delta(), 1);
}

#[test]
fn readmission_needs_an_assigned_ticket() {
    let mut table = new_table();
    table.post_request_batch((1..=12).map(|i| request(i, 50)).collect()).unwrap();

    let assigned = table.next_assignment().unwrap();
    let (_matchings, mut completed) = GroundAllocator::new(assigned).run_allocation();
    assert!(table.can_readmit(&completed));

    let lease = completed.lease.take();
    assert!(!table.can_readmit(&completed));
    completed.lease = lease;

    table.readmit_completed(completed);
    let diagnostics = table.diagnostics();
    assert_eq!(diagnostics.assigned_count, 0);
    assert_eq!(diagnostics.per_bucket_request_count, vec![2, 0, 0]);
    assert_eq!(diagnostics.total_filled_request_count, 10);
    assert_eq!(diagnostics.ready_count, 1);
}

fn ticket_total(table: &SchedulingTable<WideningPolicy>) -> usize {
    let d = table.diagnostics();
    d.ready_count + d.assigned_count + d.waiting_count + d.contended_count + d.empty_count
}

#[test]
fn every_ticket_is_in_exactly_one_place() {
    let mut table = SchedulingTable::new(test_queue_parameters(), WideningPolicy);
    assert_eq!(ticket_total(&table), 3);

    table.post_request_batch((1..=12).map(|i| request(i, 50)).chain((13..=14).map(|i| request(i, 150))).collect()).unwrap();
    assert_eq!(ticket_total(&table), 3);

    let first = table.next_assignment().unwrap();
    let second = table.next_assignment().unwrap();
    assert_eq!(table.diagnostics().assigned_count, 2);
    assert_eq!(ticket_total(&table), 3);

    let (_m, completed) = GroundAllocator::new(first).run_allocation();
    table.readmit_completed(completed);
    assert_eq!(ticket_total(&table), 3);

    assert!(table.next_assignment().is_none());
    assert_eq!(table.diagnostics().contended_count, 1);
    assert_eq!(ticket_total(&table), 3);

    let (_m, completed) = GroundAllocator::new(second).run_allocation();
    table.readmit_completed(completed);
    assert_eq!(table.diagnostics().assigned_count, 0);
    assert_eq!(ticket_total(&table), 3);
}

#[test]
fn readmission_refuses_a_ticket_that_is_not_out() {
    let mut table = new_table();
    table.post_request_batch(vec![request(1, 50), request(2, 150)]).unwrap();
    let assigned = table.next_assignment().unwrap();
    assert_eq!(assigned.anchor_bucket_index(), 0);

    // a completion for bucket 1, whose ticket is still ready
    let (mut other_matrix, _) = RequestMatrix::new(3, 1);
    let forged = Completed {
        ticket: Ticket::new(1),
        lease: Some(Lease::try_acquire(&mut other_matrix, 1, 0).unwrap()),
        local_feedback: GroundAllocationSessionSummary {
            successful_matchings: 0,
            furthest_bucket_distance: 0,
            completion_timestamp: 0,
            drained_counts: OffsetIndexedSlice::from_slice(&[0usize], 0, 0).unwrap(),
        },
    };
    assert!(!table.can_readmit(&forged));

    let (_m, completed) = GroundAllocator::new(assigned).run_allocation();
    assert!(table.can_readmit(&completed));
}

#[test]
fn reach_widens_toward_a_larger_target_after_an_edge_session() {
    // short of the target and the session reached the edge: one wider
    assert_eq!(step_reach(1, 3, 5, 1), 2);
    // short of the target but the session stayed inside: unchanged
    assert_eq!(step_reach(1, 3, 5, 0), 1);
}

#[test]
fn reach_narrows_toward_a_smaller_target_after_an_inside_session() {
    assert_eq!(step_reach(3, 1, 5, 2), 2);
    // the session reached the edge: no narrowing
    assert_eq!(step_reach(3, 1, 5, 3), 3);
    // on target: unchanged
    assert_eq!(step_reach(2, 2, 5, 2), 2);
}

#[test]
fn reach_target_is_held_to_the_ceiling() {
    // a target past the ceiling of 2 stops the widening at 2
    assert_eq!(step_reach(2, 10, 2, 2), 2);
    assert_eq!(step_reach(1, 10, 2, 1), 2);
}

#[test]
fn backoff_deadline_adds_the_backoff_and_saturates() {
    assert_eq!(backoff_deadline(1_000, 250), 1_250);
    assert_eq!(backoff_deadline(u64::MAX - 1, 10), u64::MAX);
}

#[test]
fn posting_reports_one_error_per_failed_request_in_order() {
    let mut table = new_table();

    let errors = table
        .post_request_batch(vec![request(1, 650), request(2, 50), request(3, 450), request(4, 250)])
        .unwrap_err();

    assert_eq!(errors.len(), 2);
    assert!(matches!(errors[0], PostError::InvalidIndex(6)));
    assert!(matches!(errors[1], PostError::InvalidIndex(4)));
    assert_eq!(table.diagnostics().per_bucket_request_count, vec![1, 0, 1]);
}

#[test]
fn a_full_bucket_refuses_the_request_it_cannot_hold() {
    let parameters = MatchmakingQueueParameters::builder()
        .skill_rating_range(300)
        .bucket_width(100)
        .delta_ceiling(2)
        .bucket_capacity(1)
        .build()
        .unwrap();
    let mut table = SchedulingTable::new(parameters, SteadyPolicy);

    let errors = table.post_request_batch(vec![request(1, 50), request(2, 60)]).unwrap_err();

    assert_eq!(errors.len(), 1);
    assert!(matches!(errors[0], PostError::BucketFull(0, r) if r.request_id == 2));
    assert_eq!(table.diagnostics().per_bucket_request_count, vec![1, 0, 0]);
}

#[test]
fn readmission_with_a_head_request_readies_the_ticket_with_its_time() {
    let mut table = new_table();
    table.post_request_batch((1..=20).map(|id| request(id, 50)).collect()).unwrap();
    let mut assigned = table.next_assignment().unwrap();
    assigned.ground_allocation_control_signals.maximum_matchings = 1;
    let (_matchings, completed) = GroundAllocator::new(assigned).run_allocation();

    table.readmit_completed_with_head(completed, Some(request(11, 50)));

    let diagnostics = table.diagnostics();
    assert_eq!(diagnostics.ready_count, 1);
    let reassigned = table.next_assignment().unwrap();
    assert_eq!(reassigned.anchor_bucket_index(), 0);
    assert_eq!(reassigned.ticket.oldest_request_timestamp(), Some(11 * SECOND));
}

#[test]
fn readmission_without_a_head_request_holds_the_ticket_empty() {
    let mut table = new_table();
    table.post_request_batch((1..=20).map(|id| request(id, 50)).collect()).unwrap();
    let mut assigned = table.next_assignment().unwrap();
    assigned.ground_allocation_control_signals.maximum_matchings = 1;
    let (_matchings, completed) = GroundAllocator::new(assigned).run_allocation();
    let empty_before = table.diagnostics().empty_count;

    table.readmit_completed_with_head(completed, None);

    let diagnostics = table.diagnostics();
    assert_eq!(diagnostics.ready_count, 0);
    assert_eq!(diagnostics.empty_count, empty_before + 1);
    assert!(table.next_assignment().is_none());
}
