//! The scheduler thread's decisions: which ground allocator gets which
//! assigned ticket, and which allocators wait for work. The thread that owns
//! the channels runs these on each event it receives and performs what they
//! return.

use std::collections::VecDeque;

use vstd::prelude::*;

use crate::generator::generator::MatchmakingRequest;
use crate::matchmaking::config::MatchmakingQueueParameters;
use crate::matchmaking::ground_allocation::can_allocate;
use crate::matchmaking::scheduling::request_matrix::PostError;
use crate::matchmaking::scheduling::scheduling_table::{
    anchor_of, capped, counts_after_drain, flushed, posting, requests_to, taken_of, woken_by, SchedulerDiagnostics, SchedulingPolicy, SchedulingTable,
};
use crate::matchmaking::scheduling::states::{Contended, Waiting};
use crate::matchmaking::scheduling::substructures::empty_hold::count_some;
use crate::matchmaking::scheduling::{Assigned, Completed};

verus! {

/// The scheduling table, with the ground allocators that asked for work while
/// none was ready, first come first served.
pub struct SchedulerCore<P: SchedulingPolicy> {
    scheduling_table: SchedulingTable<P>,
    waiting_allocators: VecDeque<usize>,
}

/// Whether `dispatched` hands one assignment to each of the first allocators
/// of `idle`, in order, each one a ticket a session can run on.
pub open spec fn dispatched_in_order(idle: Seq<usize>, dispatched: Seq<(usize, Assigned)>) -> bool {
    &&& dispatched.len() <= idle.len()
    &&& forall|k: int| 0 <= k < dispatched.len() ==> (#[trigger] dispatched[k]).0 == idle[k] && can_allocate(dispatched[k].1)
}

impl<P: SchedulingPolicy> SchedulerCore<P> {
    pub closed spec fn table(&self) -> SchedulingTable<P> {
        self.scheduling_table
    }

    /// The allocators waiting for work, in the order they asked.
    pub closed spec fn idle(&self) -> Seq<usize> {
        self.waiting_allocators@
    }

    /// The table is well formed, and no allocator waits while a ticket is
    /// ready.
    pub open spec fn wf(&self) -> bool {
        &&& self.table().wf()
        &&& (self.idle().len() == 0 || self.table().ready().len() == 0)
    }

    pub fn new(queue_parameters: MatchmakingQueueParameters, policy: P, ground_allocator_thread_count: usize) -> (core: Self)
        requires
            queue_parameters@.skill_rating_range / queue_parameters@.bucket_width <= i32::MAX,
        ensures
            core.wf(),
            core.idle().len() == 0,
            core.table().parameters() == queue_parameters@,
            core.table().assigned() == 0,
    {
        SchedulerCore {
            scheduling_table: SchedulingTable::new(queue_parameters, policy),
            waiting_allocators: VecDeque::with_capacity(ground_allocator_thread_count),
        }
    }

    /// The allocators waiting for work, in the order they asked.
    pub fn waiting_allocators(&self) -> (v: Vec<usize>)
        ensures
            v@ == self.idle(),
    {
        let mut v: Vec<usize> = Vec::with_capacity(self.waiting_allocators.len());
        let mut i: usize = 0;
        while i < self.waiting_allocators.len()
            invariant
                i <= self.waiting_allocators@.len(),
                v@ == self.waiting_allocators@.subrange(0, i as int),
            decreases self.waiting_allocators@.len() - i,
        {
            v.push(self.waiting_allocators[i]);
            i = i + 1;
        }
        proof {
            assert(self.waiting_allocators@.subrange(0, i as int) =~= self.waiting_allocators@);
        }
        v
    }

    /// A snapshot of the table's counters and lanes.
    pub fn diagnostics(&self) -> (d: SchedulerDiagnostics)
        requires
            self.wf(),
        ensures
            d.total_request_count == self.table().requests_received(),
            d.total_filled_request_count == self.table().requests_assigned(),
            d.per_bucket_request_count@ == self.table().counts(),
            d.ready_count == self.table().ready().len(),
            d.assigned_count == self.table().assigned(),
            d.waiting_count == self.table().waiting().len(),
            d.contended_count == self.table().contenders().flatten().len(),
            d.empty_count == count_some(self.table().empty_slots()),
            d.contention_lane_view@.len() == self.table().bucket_count(),
            forall|i: int|
                0 <= i < self.table().bucket_count() ==> (#[trigger] d.contention_lane_view@[i])@
                    == self.table().contenders()[i].map_values(|c: Contended| c.ticket_view().anchor),
    {
        self.scheduling_table.diagnostics()
    }

    /// Hands assignments to the waiting allocators, first come first served,
    /// while the table has any to give.
    fn release_waiting(&mut self) -> (dispatched: Vec<(usize, Assigned)>)
        requires
            old(self).table().wf(),
        ensures
            final(self).wf(),
            dispatched_in_order(old(self).idle(), dispatched@),
            final(self).idle() == old(self).idle().skip(dispatched@.len() as int),
            final(self).table().assigned() == old(self).table().assigned() + dispatched@.len(),
            final(self).table().parameters() == old(self).table().parameters(),
            final(self).table().counts() == old(self).table().counts(),
            final(self).table().post_log() == old(self).table().post_log(),
            final(self).table().waiting() == old(self).table().waiting(),
            final(self).table().empty_slots() == old(self).table().empty_slots(),
            final(self).table().requests_received() == old(self).table().requests_received(),
            final(self).table().requests_assigned() == old(self).table().requests_assigned(),
    {
        let ghost idle0 = self.waiting_allocators@;
        let mut dispatched: Vec<(usize, Assigned)> = Vec::new();
        loop
            invariant
                self.scheduling_table.wf(),
                dispatched_in_order(idle0, dispatched@),
                self.waiting_allocators@ == idle0.skip(dispatched@.len() as int),
                self.scheduling_table.assigned() == old(self).scheduling_table.assigned() + dispatched@.len(),
                self.scheduling_table.parameters() == old(self).scheduling_table.parameters(),
                self.scheduling_table.counts() == old(self).scheduling_table.counts(),
                self.scheduling_table.post_log() == old(self).scheduling_table.post_log(),
                self.scheduling_table.waiting() == old(self).scheduling_table.waiting(),
                self.scheduling_table.empty_slots() == old(self).scheduling_table.empty_slots(),
                self.scheduling_table.requests_received() == old(self).scheduling_table.requests_received(),
                self.scheduling_table.requests_assigned() == old(self).scheduling_table.requests_assigned(),
                idle0 == old(self).waiting_allocators@,
            ensures
                self.scheduling_table.wf(),
                self.waiting_allocators@.len() == 0 || self.scheduling_table.ready().len() == 0,
                dispatched_in_order(idle0, dispatched@),
                self.waiting_allocators@ == idle0.skip(dispatched@.len() as int),
                self.scheduling_table.assigned() == old(self).scheduling_table.assigned() + dispatched@.len(),
                self.scheduling_table.parameters() == old(self).scheduling_table.parameters(),
                self.scheduling_table.counts() == old(self).scheduling_table.counts(),
                self.scheduling_table.post_log() == old(self).scheduling_table.post_log(),
                self.scheduling_table.waiting() == old(self).scheduling_table.waiting(),
                self.scheduling_table.empty_slots() == old(self).scheduling_table.empty_slots(),
                self.scheduling_table.requests_received() == old(self).scheduling_table.requests_received(),
                self.scheduling_table.requests_assigned() == old(self).scheduling_table.requests_assigned(),
            decreases self.waiting_allocators@.len(),
        {
            if self.waiting_allocators.len() == 0 {
                break;
            }
            match self.scheduling_table.next_assignment() {
                Some(assigned) => {
                    let ghost k = dispatched@.len();
                    let allocator = self.waiting_allocators.pop_front().unwrap();
                    proof {
                        assert(allocator == idle0[k as int]);
                        assert(idle0.skip(k + 1int) =~= idle0.skip(k as int).subrange(1, idle0.skip(k as int).len() as int));
                    }
                    dispatched.push((allocator, assigned));
                },
                None => {
                    break;
                },
            }
        }
        dispatched
    }

    /// A batch of requests arrived: posts it, then hands out what became
    /// ready to the waiting allocators. Also answers which requests failed
    /// to post.
    pub fn on_request_batch(&mut self, requests: Vec<MatchmakingRequest>) -> (r: (
        Result<(), Vec<PostError>>,
        Vec<(usize, Assigned)>,
    ))
        requires
            old(self).wf(),
        ensures
            final(self).wf(),
            dispatched_in_order(old(self).idle(), r.1@),
            final(self).idle() == old(self).idle().skip(r.1@.len() as int),
            final(self).table().assigned() == old(self).table().assigned() + r.1@.len(),
            final(self).table().parameters() == old(self).table().parameters(),
            final(self).table().requests_received() == capped(
                old(self).table().requests_received() + requests@.len(),
            ),
            forall|i: int|
                0 <= i < requests@.len() && anchor_of(#[trigger] requests@[i], old(self).table().parameters().bucket_width)
                    >= old(self).table().bucket_count() ==> r.0 is Err,
            r.0 is Ok ==> forall|b: int|
                0 <= b < old(self).table().bucket_count() ==> #[trigger] final(self).table().counts()[b]
                    == old(self).table().counts()[b] + requests_to(requests@, b, old(self).table().parameters().bucket_width),
            ({
                let l0 = old(self).table().post_log();
                let l1 = final(self).table().post_log();
                let pushed = l1.subrange(l0.len() as int, l1.len() as int);
                let outcome = posting(
                    requests@,
                    taken_of(pushed),
                    old(self).table().counts(),
                    old(self).table().parameters().bucket_width,
                    old(self).table().parameters().requests_per_matching as int,
                );
                &&& l1.len() >= l0.len()
                &&& l1.subrange(0, l0.len() as int) == l0
                &&& pushed == outcome.0
                &&& final(self).table().empty_slots() == woken_by(pushed, old(self).table().empty_slots()).1
                &&& exists|flush_time: u64, moved: Seq<Waiting>|
                    flushed(old(self).table().waiting(), final(self).table().waiting(), moved, flush_time)
                &&& final(self).table().counts() == outcome.2
                &&& match r.0 {
                    Ok(()) => outcome.1.len() == 0,
                    Err(errors) => errors@ == outcome.1 && outcome.1.len() > 0,
                }
            }),
    {
        let posted = self.scheduling_table.post_request_batch(requests);
        let dispatched = self.release_waiting();
        (posted, dispatched)
    }

    /// Allocator `allocator` asks for work: it gets the next assignment, or
    /// waits behind the allocators already waiting when there is none.
    pub fn on_allocator_ready(&mut self, allocator: usize) -> (r: Option<Assigned>)
        requires
            old(self).wf(),
        ensures
            final(self).wf(),
            final(self).table().parameters() == old(self).table().parameters(),
            final(self).table().counts() == old(self).table().counts(),
            r is None ==> final(self).idle() == old(self).idle().push(allocator)
                && final(self).table().assigned() == old(self).table().assigned(),
            r matches Some(a) ==> final(self).idle() == old(self).idle() && can_allocate(a)
                && final(self).table().assigned() == old(self).table().assigned() + 1,
    {
        match self.scheduling_table.next_assignment() {
            Some(assigned) => Some(assigned),
            None => {
                self.waiting_allocators.push_back(allocator);
                None
            },
        }
    }

    /// An allocator finished a session: its ticket is readmitted, then what
    /// became ready goes to the waiting allocators. A ticket the table cannot
    /// take back is handed back untouched.
    pub fn on_allocator_complete(&mut self, completed: Completed) -> (r: Result<Vec<(usize, Assigned)>, Completed>)
        requires
            old(self).wf(),
        ensures
            final(self).wf(),
            final(self).table().parameters() == old(self).table().parameters(),
            match r {
                Ok(dispatched) => {
                    &&& old(self).table().readmission_allowed(completed)
                    &&& dispatched_in_order(old(self).idle(), dispatched@)
                    &&& final(self).idle() == old(self).idle().skip(dispatched@.len() as int)
                    &&& final(self).table().assigned() == old(self).table().assigned() - 1 + dispatched@.len()
                    &&& final(self).table().counts() == counts_after_drain(
                        old(self).table().counts(),
                        completed.local_feedback.drained_counts@,
                        completed.ticket@.anchor as int,
                    )
                },
                Err(returned) => {
                    &&& !old(self).table().readmission_allowed(completed)
                    &&& returned == completed
                    &&& *final(self) == *old(self)
                },
            },
    {
        if !self.scheduling_table.can_readmit(&completed) {
            return Err(completed);
        }
        self.scheduling_table.readmit_completed(completed);
        Ok(self.release_waiting())
    }
}

} // verus!
