//! Ticket job system.

use vstd::prelude::*;

use crate::matchmaking::scheduling::substructures::empty_hold::EmptyHold;

verus! {

/// What a ticket holds: its anchor bucket, its current reach around the
/// anchor, and the submission time of the oldest request in its anchor bucket.
pub struct TicketView {
    pub anchor: usize,
    pub delta: usize,
    pub oldest: Option<u64>,
}

/// A scheduling ticket: one per anchor bucket.
#[derive(Debug)]
pub struct Ticket {
    anchor_bucket_index: usize,
    pub delta: usize,
    pub oldest_request_timestamp: Option<u64>,
}

impl View for Ticket {
    type V = TicketView;

    closed spec fn view(&self) -> TicketView {
        TicketView {
            anchor: self.anchor_bucket_index,
            delta: self.delta,
            oldest: self.oldest_request_timestamp,
        }
    }
}

impl Ticket {
    pub fn new(anchor_bucket_index: usize) -> (ticket: Ticket)
        ensures
            ticket@ == (TicketView { anchor: anchor_bucket_index, delta: 0, oldest: None }),
    {
        Ticket { anchor_bucket_index, delta: 0, oldest_request_timestamp: None }
    }

    pub fn anchor_bucket_index(&self) -> (anchor: usize)
        ensures
            anchor == self@.anchor,
    {
        self.anchor_bucket_index
    }

    pub fn delta(&self) -> (delta: usize)
        ensures
            delta == self@.delta,
    {
        self.delta
    }

    pub fn oldest_request_timestamp(&self) -> (timestamp: Option<u64>)
        ensures
            timestamp == self@.oldest,
    {
        self.oldest_request_timestamp
    }

    pub fn set_delta(&mut self, delta: usize)
        ensures
            final(self)@ == (TicketView { delta, ..old(self)@ }),
    {
        self.delta = delta;
    }

    pub fn set_oldest_request_timestamp(&mut self, timestamp: Option<u64>)
        ensures
            final(self)@ == (TicketView { oldest: timestamp, ..old(self)@ }),
    {
        self.oldest_request_timestamp = timestamp;
    }

}

/// Issues one empty ticket per anchor bucket.
pub fn issue_tickets(count: usize) -> (hold: EmptyHold)
    ensures
        hold.wf(),
        hold.count() == count,
        hold.slots().len() == count,
        forall|i: int| 0 <= i < count ==> #[trigger] hold.slots()[i] == Some(
            TicketView { anchor: i as usize, delta: 0, oldest: None },
        ),
{
    EmptyHold::new_with_issue(count)
}

} // verus!
