use rt_matchmaking::matchmaking::ground_allocation::{
    GroundAllocationControlSignals, GroundAllocationSessionSummary,
};
use rt_matchmaking::matchmaking::scheduling::leases::Lease;
use rt_matchmaking::matchmaking::scheduling::queues::{ReadyQueue, WaitingLane};
use rt_matchmaking::matchmaking::scheduling::request_matrix::RequestMatrix;
use rt_matchmaking::matchmaking::scheduling::scheduling_table::ReadyPriority;
use rt_matchmaking::matchmaking::scheduling::states::{new_empty_ticket, Normal, Waiting};
use rt_matchmaking::matchmaking::scheduling::tickets::Ticket;
use rt_matchmaking::matchmaking::utils::OffsetIndexedSlice;

const SECOND: u64 = 1_000_000_000;

fn signals(eligible: usize) -> GroundAllocationControlSignals {
    GroundAllocationControlSignals {
        maximum_matchings: 1,
        requests_per_matching: 10,
        window_eligible_request_counts: OffsetIndexedSlice::from_slice(&[eligible], 0, 0).unwrap(),
    }
}

fn failed_session() -> GroundAllocationSessionSummary {
    GroundAllocationSessionSummary {
        successful_matchings: 0,
        furthest_bucket_distance: 0,
        completion_timestamp: 0,
        drained_counts: OffsetIndexedSlice::from_slice(&[0usize], 0, 0).unwrap(),
    }
}

fn ticket_with_oldest(anchor: usize, oldest: u64) -> Ticket {
    let mut ticket = Ticket::new(anchor);
    ticket.set_oldest_request_timestamp(Some(oldest));
    ticket
}

#[test]
fn empty_ready_contended_transition_preserves_ticket_identity() {
    let contended = new_empty_ticket(2).ready().contended();

    assert_eq!(contended.anchor_bucket_index(), 2);
    assert_eq!(contended.delta(), 0);
    assert_eq!(contended.oldest_request_timestamp(), None);
}

#[test]
fn assigned_wait_transition_preserves_ticket_identity() {
    let (mut request_matrix, _) = RequestMatrix::new(1, 1);
    let lease = Lease::try_acquire(&mut request_matrix, 0, 0).unwrap();

    let mut completed = new_empty_ticket(0)
        .ready()
        .assigned(lease, signals(1))
        .complete(failed_session());

    let lease = completed.lease.take().unwrap();
    let anchor = completed.anchor_bucket_index();
    let delta = completed.delta();
    request_matrix.release(lease.into_buckets(), anchor, delta);

    let waiting = completed.wait(5 * SECOND);

    assert_eq!(waiting.anchor_bucket_index(), 0);
    assert_eq!(waiting.next_readmission_timestamp(), 5 * SECOND);
}

#[test]
fn assigned_ready_releases_lease_and_preserves_ticket() {
    let (mut request_matrix, _) = RequestMatrix::new(1, 1);
    let lease = Lease::try_acquire(&mut request_matrix, 0, 0).unwrap();

    let mut completed = new_empty_ticket(0)
        .ready()
        .assigned(lease, signals(1))
        .complete(failed_session());

    let lease = completed.lease.take().unwrap();
    let anchor = completed.anchor_bucket_index();
    let delta = completed.delta();
    request_matrix.release(lease.into_buckets(), anchor, delta);

    let normal = completed.ready();

    assert_eq!(normal.anchor_bucket_index(), 0);
    assert!(request_matrix.try_lease_window(0, 0).is_ok());
}

#[test]
fn assigned_empty_releases_lease_and_preserves_ticket() {
    let (mut request_matrix, _) = RequestMatrix::new(1, 1);
    let lease = Lease::try_acquire(&mut request_matrix, 0, 0).unwrap();

    let mut completed = new_empty_ticket(0)
        .ready()
        .assigned(lease, signals(0))
        .complete(failed_session());

    let lease = completed.lease.take().unwrap();
    let anchor = completed.anchor_bucket_index();
    let delta = completed.delta();
    request_matrix.release(lease.into_buckets(), anchor, delta);

    let empty = completed.empty();

    assert_eq!(empty.anchor_bucket_index(), 0);
    assert!(request_matrix.try_lease_window(0, 0).is_ok());
}

#[test]
fn waiting_orders_earliest_timestamp_first() {
    let mut lane = WaitingLane::new();

    lane.push(Waiting::new(Ticket::new(0), 10 * SECOND));
    lane.push(Waiting::new(Ticket::new(1), 5 * SECOND));

    assert_eq!(lane.pop().unwrap().anchor_bucket_index(), 1);
}

#[test]
fn normal_orders_oldest_anchor_request_first() {
    let mut queue = ReadyQueue::new();

    let newer = ticket_with_oldest(0, 10 * SECOND);
    let older = ticket_with_oldest(1, 5 * SECOND);

    queue.push(ReadyPriority::Normal(Normal::new(newer)));
    queue.push(ReadyPriority::Normal(Normal::new(older)));

    assert_eq!(queue.pop().unwrap().peek().anchor_bucket_index(), 1);
}

#[test]
fn contended_orders_longest_wait_first() {
    let mut queue = ReadyQueue::new();

    let shorter_wait = ticket_with_oldest(0, 3 * SECOND);
    let longer_wait = ticket_with_oldest(1, 4 * SECOND);

    queue.push(ReadyPriority::Contended(Normal::new(shorter_wait).contended_at(10 * SECOND)));
    queue.push(ReadyPriority::Contended(Normal::new(longer_wait).contended_at(5 * SECOND)));

    assert_eq!(queue.pop().unwrap().peek().anchor_bucket_index(), 1);
}

#[test]
fn contended_to_completed_to_ready_cycle() {
    let (mut request_matrix, _) = RequestMatrix::new(1, 1);
    let lease = Lease::try_acquire(&mut request_matrix, 0, 0).unwrap();

    let contended = new_empty_ticket(0).ready().contended();
    assert_eq!(contended.anchor_bucket_index(), 0);

    let mut completed = contended.assigned(lease, signals(1)).complete(failed_session());

    let lease = completed.lease.take().unwrap();
    let anchor = completed.anchor_bucket_index();
    let delta = completed.delta();
    request_matrix.release(lease.into_buckets(), anchor, delta);

    let ready = completed.ready();
    assert_eq!(ready.anchor_bucket_index(), 0);
    assert!(request_matrix.try_lease_window(0, 0).is_ok());
}

#[test]
fn mixed_ready_priority_contended_before_normal() {
    let mut queue = ReadyQueue::new();

    let late_ticket = ticket_with_oldest(0, SECOND);
    let contended_ticket = ticket_with_oldest(1, 100 * SECOND);

    queue.push(ReadyPriority::Normal(Normal::new(late_ticket)));
    queue.push(ReadyPriority::Contended(Normal::new(contended_ticket).contended_at(100 * SECOND)));

    assert_eq!(queue.pop().unwrap().peek().anchor_bucket_index(), 1);
}

#[test]
fn normal_same_timestamp_is_stable_in_heap() {
    let mut queue = ReadyQueue::new();

    let ticket_a = ticket_with_oldest(2, 10 * SECOND);
    let ticket_b = ticket_with_oldest(5, 10 * SECOND);

    queue.push(ReadyPriority::Normal(Normal::new(ticket_a)));
    queue.push(ReadyPriority::Normal(Normal::new(ticket_b)));

    let first = queue.pop().unwrap();
    let second = queue.pop().unwrap();
    assert!(queue.is_empty());

    let anchors: Vec<usize> = vec![first.peek().anchor_bucket_index(), second.peek().anchor_bucket_index()];
    assert!(anchors.contains(&2));
    assert!(anchors.contains(&5));
}

#[test]
fn normal_without_oldest_request_goes_first() {
    let mut queue = ReadyQueue::new();

    queue.push(ReadyPriority::Normal(Normal::new(ticket_with_oldest(0, SECOND))));
    queue.push(ReadyPriority::Normal(Normal::new(Ticket::new(1))));

    assert_eq!(queue.pop().unwrap().peek().anchor_bucket_index(), 1);
    assert_eq!(queue.pop().unwrap().peek().anchor_bucket_index(), 0);
    assert!(queue.pop().is_none());
}

#[test]
fn contended_with_equal_start_prefers_older_request() {
    let mut queue = ReadyQueue::new();

    queue.push(ReadyPriority::Contended(Normal::new(ticket_with_oldest(0, 9 * SECOND)).contended_at(SECOND)));
    queue.push(ReadyPriority::Contended(Normal::new(ticket_with_oldest(1, 2 * SECOND)).contended_at(SECOND)));

    assert_eq!(queue.pop().unwrap().peek().anchor_bucket_index(), 1);
}

#[test]
fn waiting_lane_peek_shows_the_next_due_ticket() {
    let mut lane = WaitingLane::new();
    assert!(lane.peek().is_none());

    lane.push(Waiting::new(Ticket::new(3), 7 * SECOND));
    lane.push(Waiting::new(Ticket::new(4), 2 * SECOND));
    lane.push(Waiting::new(Ticket::new(5), 9 * SECOND));

    assert_eq!(lane.peek().unwrap().next_readmission_timestamp(), 2 * SECOND);
    assert_eq!(lane.len(), 3);
    assert_eq!(lane.pop().unwrap().anchor_bucket_index(), 4);
    assert_eq!(lane.pop().unwrap().anchor_bucket_index(), 3);
    assert_eq!(lane.pop().unwrap().anchor_bucket_index(), 5);
    assert!(lane.is_empty());
}

#[test]
fn contend_keeps_an_existing_contention_start() {
    let contended = Normal::new(Ticket::new(1)).contended_at(4 * SECOND);
    let again = ReadyPriority::Contended(contended).contend_at(9 * SECOND);
    assert_eq!(again.contention_start_timestamp(), 4 * SECOND);

    let fresh = ReadyPriority::Normal(Normal::new(Ticket::new(2))).contend_at(9 * SECOND);
    assert_eq!(fresh.contention_start_timestamp(), 9 * SECOND);
    assert_eq!(fresh.anchor_bucket_index(), 2);
}
