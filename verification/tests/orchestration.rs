use rt_matchmaking::matchmaking::config::MatchmakingQueueParameters;
use rt_matchmaking::matchmaking::ground_allocation::{GroundAllocationSessionSummary, GroundAllocator};
use rt_matchmaking::matchmaking::scheduling::scheduling_table::{SchedulerBookkeeping, SchedulingPolicy};
use rt_matchmaking::matchmaking::scheduling::tickets::Ticket;
use rt_matchmaking::orchestration::io::{declared_length, encode_frame, frame_header, FRAME_HEADER_LEN};
use rt_matchmaking::orchestration::workers::SchedulerCore;
use rt_matchmaking::prelude::MatchmakingRequest;

struct SteadyPolicy;

impl SchedulingPolicy for SteadyPolicy {
    fn record_new_request_batch(&mut self, _arrival_timestamp: u64, _batch_size: usize) {}

    fn record_new_assignment_batch(&mut self, _batch_size: usize) {}

    fn target_delta(
        &self,
        ticket: &Ticket,
        _bookkeeping: &SchedulerBookkeeping,
        _queue_parameters: &MatchmakingQueueParameters,
        _local_feedback: &GroundAllocationSessionSummary,
    ) -> usize {
        ticket.delta()
    }

    fn backoff_duration(
        &self,
        _ticket: &Ticket,
        _bookkeeping: &SchedulerBookkeeping,
        _queue_parameters: &MatchmakingQueueParameters,
        _local_feedback: &GroundAllocationSessionSummary,
    ) -> u64 {
        1_000_000_000
    }
}

fn request(request_id: u32, skill_rating: u32) -> MatchmakingRequest {
    MatchmakingRequest { request_id, skill_rating, submission_timestamp: request_id as u64 }
}

fn new_core() -> SchedulerCore<SteadyPolicy> {
    let parameters = MatchmakingQueueParameters::builder()
        .skill_rating_range(300)
        .bucket_width(100)
        .delta_ceiling(2)
        .build()
        .unwrap();
    SchedulerCore::new(parameters, SteadyPolicy, 2)
}

#[test]
fn frame_carries_length_prefix_then_payload() {
    let payload = b"hello world";
    let frame = encode_frame(payload);

    assert_eq!(frame.len(), FRAME_HEADER_LEN + payload.len());
    assert_eq!(&frame[0..4], &11u32.to_be_bytes());
    assert_eq!(&frame[4..], &payload[..]);
}

#[test]
fn frame_header_round_trips_through_declared_length() {
    assert_eq!(frame_header(7), [0, 0, 0, 7]);
    assert_eq!(frame_header(0x0102_0304), [1, 2, 3, 4]);
    assert_eq!(declared_length([0, 0, 1, 2]), 258);
    assert_eq!(declared_length(frame_header(4_000_000_000)), 4_000_000_000);
    assert_eq!(declared_length(frame_header(0)), 0);
}

#[test]
fn empty_payload_makes_a_bare_header() {
    assert_eq!(encode_frame(&[]), vec![0, 0, 0, 0]);
}

#[test]
fn idle_allocators_are_served_first_come_first_served() {
    let mut scheduler = new_core();

    assert!(scheduler.on_allocator_ready(0).is_none());
    assert!(scheduler.on_allocator_ready(1).is_none());
    assert_eq!(scheduler.waiting_allocators(), vec![0, 1]);

    let (posted, dispatched) = scheduler.on_request_batch((1..=10).map(|i| request(i, 50)).collect());
    assert!(posted.is_ok());
    assert_eq!(dispatched.len(), 1);
    assert_eq!(dispatched[0].0, 0);
    assert_eq!(dispatched[0].1.anchor_bucket_index(), 0);
    assert_eq!(scheduler.waiting_allocators(), vec![1]);

    let (posted, dispatched) = scheduler.on_request_batch((11..=12).map(|i| request(i, 250)).collect());
    assert!(posted.is_ok());
    assert_eq!(dispatched.len(), 1);
    assert_eq!(dispatched[0].0, 1);
    assert_eq!(dispatched[0].1.anchor_bucket_index(), 2);
    assert!(scheduler.waiting_allocators().is_empty());
}

#[test]
fn ready_allocator_gets_work_at_once_when_some_is_ready() {
    let mut scheduler = new_core();

    let (_, dispatched) = scheduler.on_request_batch(vec![request(1, 150)]);
    assert!(dispatched.is_empty());

    let assigned = scheduler.on_allocator_ready(3).unwrap();
    assert_eq!(assigned.anchor_bucket_index(), 1);
    assert!(scheduler.waiting_allocators().is_empty());
    assert_eq!(scheduler.diagnostics().assigned_count, 1);
}

#[test]
fn completion_readmits_and_releases_waiting_allocators() {
    let mut scheduler = new_core();

    let (_, _) = scheduler.on_request_batch((1..=20).map(|i| request(i, 50)).collect());
    let mut assigned = scheduler.on_allocator_ready(0).unwrap();
    assert!(scheduler.on_allocator_ready(1).is_none());

    assigned.ground_allocation_control_signals.maximum_matchings = 1;
    let (matchings, completed) = GroundAllocator::new(assigned).run_allocation();
    assert_eq!(matchings.len(), 1);

    let dispatched = scheduler.on_allocator_complete(completed).ok().unwrap();
    assert_eq!(dispatched.len(), 1);
    assert_eq!(dispatched[0].0, 1);
    assert_eq!(dispatched[0].1.lease.try_peek(0).unwrap().request_id, 11);
    assert!(scheduler.waiting_allocators().is_empty());
}

#[test]
fn completion_the_table_cannot_take_is_handed_back() {
    let mut scheduler = new_core();

    let (_, _) = scheduler.on_request_batch(vec![request(1, 50)]);
    let assigned = scheduler.on_allocator_ready(0).unwrap();
    let (_matchings, mut completed) = GroundAllocator::new(assigned).run_allocation();
    let lease = completed.lease.take();

    let returned = scheduler.on_allocator_complete(completed).err().unwrap();
    assert!(returned.lease.is_none());
    assert_eq!(scheduler.diagnostics().assigned_count, 1);
    drop(lease);
}
