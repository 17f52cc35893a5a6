//! Thin operational wrappers for ticket states.
//!
//! Except to prevent nonconsumption of a state, a state transparently provides
//! access to its ticket, as it only wraps it with additional state.

use vstd::prelude::*;

use crate::matchmaking::ground_allocation::{
    GroundAllocationControlSignals, GroundAllocationSessionSummary,
};
use crate::matchmaking::scheduling::leases::Lease;
use crate::matchmaking::scheduling::tickets::{Ticket, TicketView};
use crate::matchmaking::utils::now;

verus! {

/// Thin operational wrapper for waiting tickets.
pub struct Waiting {
    ticket: Ticket,
    next_readmission_timestamp: u64,
}

impl Waiting {
    pub closed spec fn ticket_view(&self) -> TicketView {
        self.ticket@
    }

    pub closed spec fn readmission(&self) -> u64 {
        self.next_readmission_timestamp
    }

    pub fn new(ticket: Ticket, next_readmission_timestamp: u64) -> (w: Waiting)
        ensures
            w.ticket_view() == ticket@,
            w.readmission() == next_readmission_timestamp,
    {
        Waiting { ticket, next_readmission_timestamp }
    }

    pub fn ready(self) -> (n: Normal)
        ensures
            n.ticket_view() == self.ticket_view(),
    {
        Normal::new(self.ticket)
    }

    pub fn next_readmission_timestamp(&self) -> (t: u64)
        ensures
            t == self.readmission(),
    {
        self.next_readmission_timestamp
    }

    pub fn ticket(&self) -> (t: &Ticket)
        ensures
            t@ == self.ticket_view(),
    {
        &self.ticket
    }
}

impl core::ops::Deref for Waiting {
    type Target = Ticket;

    fn deref(&self) -> (t: &Ticket)
        ensures
            t@ == self.ticket_view(),
    {
        &self.ticket
    }
}

/// Thin operational wrapper for normal ready tickets.
pub struct Normal {
    ticket: Ticket,
}

impl Normal {
    pub closed spec fn ticket_view(&self) -> TicketView {
        self.ticket@
    }

    pub fn new(ticket: Ticket) -> (n: Normal)
        ensures
            n.ticket_view() == ticket@,
    {
        Normal { ticket }
    }

    /// Marks the ticket as contended from `contention_start_timestamp` on.
    pub fn contended_at(self, contention_start_timestamp: u64) -> (c: Contended)
        ensures
            c.ticket_view() == self.ticket_view(),
            c.contention_start() == contention_start_timestamp,
    {
        Contended { ticket: self.ticket, contention_start_timestamp }
    }

    /// Marks the ticket as contended from now on.
    pub fn contended(self) -> (c: Contended)
        ensures
            c.ticket_view() == self.ticket_view(),
    {
        let timestamp = now();
        self.contended_at(timestamp)
    }

    pub fn assigned(
        self,
        lease: Lease,
        ground_allocation_control_signals: GroundAllocationControlSignals,
    ) -> (a: Assigned)
        ensures
            a.ticket@ == self.ticket_view(),
            a.lease == lease,
            a.ground_allocation_control_signals == ground_allocation_control_signals,
    {
        Assigned { ticket: self.ticket, lease, ground_allocation_control_signals }
    }

    pub fn ticket(&self) -> (t: &Ticket)
        ensures
            t@ == self.ticket_view(),
    {
        &self.ticket
    }
}

impl core::ops::Deref for Normal {
    type Target = Ticket;

    fn deref(&self) -> (t: &Ticket)
        ensures
            t@ == self.ticket_view(),
    {
        &self.ticket
    }
}

/// Thin operational wrapper for assigned tickets.
pub struct Assigned {
    pub ticket: Ticket,
    pub lease: Lease,
    pub ground_allocation_control_signals: GroundAllocationControlSignals,
}

impl Assigned {
    pub fn complete(self, local_feedback: GroundAllocationSessionSummary) -> (c: Completed)
        ensures
            c.ticket@ == self.ticket@,
            c.lease == Some(self.lease),
            c.local_feedback == local_feedback,
    {
        Completed { ticket: self.ticket, lease: Some(self.lease), local_feedback }
    }

    pub fn anchor_bucket_index(&self) -> (anchor: usize)
        ensures
            anchor == self.ticket@.anchor,
    {
        self.ticket.anchor_bucket_index()
    }
}

impl core::ops::Deref for Assigned {
    type Target = Ticket;

    fn deref(&self) -> (t: &Ticket)
        ensures
            t@ == self.ticket@,
    {
        &self.ticket
    }
}

/// Thin operational wrapper for contended tickets.
pub struct Contended {
    ticket: Ticket,
    contention_start_timestamp: u64,
}

impl Contended {
    pub closed spec fn ticket_view(&self) -> TicketView {
        self.ticket@
    }

    pub closed spec fn contention_start(&self) -> u64 {
        self.contention_start_timestamp
    }

    pub fn assigned(
        self,
        lease: Lease,
        ground_allocation_control_signals: GroundAllocationControlSignals,
    ) -> (a: Assigned)
        ensures
            a.ticket@ == self.ticket_view(),
            a.lease == lease,
            a.ground_allocation_control_signals == ground_allocation_control_signals,
    {
        Assigned { ticket: self.ticket, lease, ground_allocation_control_signals }
    }

    pub fn ticket(&self) -> (t: &Ticket)
        ensures
            t@ == self.ticket_view(),
    {
        &self.ticket
    }

    pub fn contention_start_timestamp(&self) -> (t: u64)
        ensures
            t == self.contention_start(),
    {
        self.contention_start_timestamp
    }
}

impl core::ops::Deref for Contended {
    type Target = Ticket;

    fn deref(&self) -> (t: &Ticket)
        ensures
            t@ == self.ticket_view(),
    {
        &self.ticket
    }
}

/// Thin operational wrapper for empty tickets.
#[derive(Debug)]
pub struct Empty {
    ticket: Ticket,
}

impl Empty {
    pub closed spec fn ticket_view(&self) -> TicketView {
        self.ticket@
    }

    pub fn new(ticket: Ticket) -> (e: Empty)
        ensures
            e.ticket_view() == ticket@,
    {
        Empty { ticket }
    }

    pub fn ready(self) -> (n: Normal)
        ensures
            n.ticket_view() == self.ticket_view(),
    {
        Normal::new(self.ticket)
    }

    pub fn ticket(&self) -> (t: &Ticket)
        ensures
            t@ == self.ticket_view(),
    {
        &self.ticket
    }

    /// Records the submission time of the oldest request of the anchor bucket.
    pub fn set_oldest_request_timestamp(&mut self, timestamp: Option<u64>)
        ensures
            final(self).ticket_view() == (TicketView { oldest: timestamp, ..old(self).ticket_view() }),
    {
        self.ticket.set_oldest_request_timestamp(timestamp);
    }
}

impl core::ops::Deref for Empty {
    type Target = Ticket;

    fn deref(&self) -> (t: &Ticket)
        ensures
            t@ == self.ticket_view(),
    {
        &self.ticket
    }
}

/// Thin operational wrapper for completed tickets.
/// The lease must be extracted and freed before the ticket moves on.
pub struct Completed {
    pub ticket: Ticket,
    pub lease: Option<Lease>,
    pub local_feedback: GroundAllocationSessionSummary,
}

impl Completed {
    pub fn wait(self, until: u64) -> (w: Waiting)
        requires
            self.lease is None,
        ensures
            w.ticket_view() == self.ticket@,
            w.readmission() == until,
    {
        Waiting::new(self.ticket, until)
    }

    pub fn ready(self) -> (n: Normal)
        requires
            self.lease is None,
        ensures
            n.ticket_view() == self.ticket@,
    {
        Normal::new(self.ticket)
    }

    pub fn empty(self) -> (e: Empty)
        requires
            self.lease is None,
        ensures
            e.ticket_view() == self.ticket@,
    {
        Empty::new(self.ticket)
    }

    pub fn anchor_bucket_index(&self) -> (anchor: usize)
        ensures
            anchor == self.ticket@.anchor,
    {
        self.ticket.anchor_bucket_index()
    }
}

impl core::ops::Deref for Completed {
    type Target = Ticket;

    fn deref(&self) -> (t: &Ticket)
        ensures
            t@ == self.ticket@,
    {
        &self.ticket
    }
}

pub fn new_empty_ticket(anchor_index: usize) -> (e: Empty)
    ensures
        e.ticket_view() == (TicketView { anchor: anchor_index, delta: 0, oldest: None }),
{
    Empty::new(Ticket::new(anchor_index))
}

} // verus!
