use rt_matchmaking::matchmaking::scheduling::states::new_empty_ticket;
use rt_matchmaking::matchmaking::scheduling::substructures::contention::Contention;
use rt_matchmaking::matchmaking::scheduling::substructures::empty_hold::EmptyHold;
use rt_matchmaking::matchmaking::scheduling::tickets::{issue_tickets, Ticket};

#[test]
fn flushes_all_contenders_in_the_released_window() {
    let mut contention = Contention::new(5);

    contention.contend_ticket(new_empty_ticket(0).ready().contended(), 0);
    contention.contend_ticket(new_empty_ticket(1).ready().contended(), 1);
    contention.contend_ticket(new_empty_ticket(4).ready().contended(), 4);

    let flushed = contention.flush_contenders(1, 1);
    let anchors: Vec<usize> = flushed.into_iter().map(|ticket| ticket.anchor_bucket_index()).collect();

    assert_eq!(anchors.len(), 2);
    assert!(anchors.contains(&0));
    assert!(anchors.contains(&1));
    assert!(contention.flush_contenders(1, 1).is_empty());
    assert_eq!(contention.flush_contenders(4, 0).len(), 1);
}

#[test]
fn contention_counts_and_scans_per_bucket() {
    let mut contention = Contention::new(3);
    assert_eq!(contention.count(), 0);

    contention.contend_ticket(new_empty_ticket(0).ready().contended(), 1);
    contention.contend_ticket(new_empty_ticket(2).ready().contended(), 1);
    contention.contend_ticket(new_empty_ticket(1).ready().contended(), 2);

    assert_eq!(contention.count(), 3);
    assert_eq!(contention.scan(), vec![vec![], vec![0, 2], vec![1]]);

    let flushed: Vec<usize> = contention.flush_contenders(1, 0).into_iter().map(|t| t.anchor_bucket_index()).collect();
    assert_eq!(flushed, vec![0, 2]);
    assert_eq!(contention.count(), 1);
}

#[test]
fn issues_one_empty_ticket_per_anchor() {
    let mut hold = EmptyHold::new_with_issue(3);

    for anchor_bucket_index in 0..3 {
        let ticket = hold.take(anchor_bucket_index).unwrap();
        assert_eq!(ticket.anchor_bucket_index(), anchor_bucket_index);
    }

    assert!(hold.take(0).is_none());
}

#[test]
fn place_reinserts_ticket_at_its_anchor() {
    let mut hold = EmptyHold::new_with_issue(1);
    let ticket = hold.take(0).unwrap();

    assert!(hold.take(0).is_none());

    hold.place(ticket);

    assert_eq!(hold.take(0).unwrap().anchor_bucket_index(), 0);
}

#[test]
fn empty_hold_counts_its_tickets() {
    let mut hold = issue_tickets(4);
    assert_eq!(hold.count(), 4);

    let taken = hold.take(2).unwrap();
    assert_eq!(hold.count(), 3);
    assert!(hold.take(2).is_none());

    hold.place(taken);
    assert_eq!(hold.count(), 4);
}

#[test]
fn new_ticket_starts_with_delta_zero_and_no_timestamp() {
    let ticket = Ticket::new(5);

    assert_eq!(ticket.anchor_bucket_index(), 5);
    assert_eq!(ticket.delta(), 0);
    assert_eq!(ticket.oldest_request_timestamp(), None);
}

#[test]
fn ticket_delta_can_be_set() {
    let mut ticket = Ticket::new(3);
    ticket.set_delta(4);

    assert_eq!(ticket.delta(), 4);
}
