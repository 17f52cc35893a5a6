//! Global allocation scheduler.

use vstd::prelude::*;
use vstd::multiset::Multiset;

use crate::generator::generator::MatchmakingRequest;
use crate::matchmaking::config::{valid_parameters, MatchmakingQueueParameters, QueueParametersView};
use crate::matchmaking::ground_allocation::{
    can_allocate, GroundAllocationControlSignals, GroundAllocationSessionSummary,
};
use crate::matchmaking::scheduling::leases::Lease;
use crate::matchmaking::scheduling::queues::{ready_precedes, waiting_precedes, ReadyQueue, WaitingLane};
use crate::matchmaking::scheduling::request_matrix::{
    all_present, first_absent, lease_of, leased, released, LeaseError, PostError, Postbox, RequestBucket, RequestMatrix,
};
use crate::matchmaking::scheduling::states::{Assigned, Completed, Contended, Normal, Waiting};
use crate::matchmaking::scheduling::substructures::contention::{
    contenders_in, lemma_flatten_all, lemma_flatten_empties, lemma_flatten_split, Contention,
};
use crate::matchmaking::scheduling::substructures::empty_hold::{
    count_some, lemma_count_some_bound, EmptyHold,
};
use crate::matchmaking::scheduling::tickets::{Ticket, TicketView};
use crate::matchmaking::utils::{
    clipped_window, now, visible_len, window_holds, window_lo, OffsetIndexedSlice, OffsetView,
};

verus! {

/// Thin operational wrapper for ready tickets.
pub enum ReadyPriority {
    Normal(Normal),
    Contended(Contended),
}

impl ReadyPriority {
    /// The ticket's view, whatever its kind.
    pub open spec fn ticket_view(&self) -> TicketView {
        match self {
            ReadyPriority::Normal(ticket) => ticket.ticket_view(),
            ReadyPriority::Contended(ticket) => ticket.ticket_view(),
        }
    }

    pub fn peek(&self) -> (t: &Ticket)
        ensures
            t@ == self.ticket_view(),
    {
        match self {
            ReadyPriority::Normal(ticket) => ticket.ticket(),
            ReadyPriority::Contended(ticket) => ticket.ticket(),
        }
    }

    pub fn assign(
        self,
        lease: Lease,
        ground_allocation_control_signals: GroundAllocationControlSignals,
    ) -> (a: Assigned)
        ensures
            a.ticket@ == self.ticket_view(),
            a.lease == lease,
            a.ground_allocation_control_signals == ground_allocation_control_signals,
    {
        match self {
            ReadyPriority::Normal(ticket) => ticket.assigned(lease, ground_allocation_control_signals),
            ReadyPriority::Contended(ticket) => ticket.assigned(lease, ground_allocation_control_signals),
        }
    }

    /// The ticket as contended; a normal ticket becomes contended from
    /// `timestamp` on, a contended one keeps its contention start.
    pub fn contend_at(self, timestamp: u64) -> (c: Contended)
        ensures
            c.ticket_view() == self.ticket_view(),
            self matches ReadyPriority::Normal(_) ==> c.contention_start() == timestamp,
            self matches ReadyPriority::Contended(old_c) ==> c == old_c,
    {
        match self {
            ReadyPriority::Normal(ticket) => ticket.contended_at(timestamp),
            ReadyPriority::Contended(ticket) => ticket,
        }
    }

    /// The ticket as contended; a normal ticket becomes contended from now on.
    pub fn contend(self) -> (c: Contended)
        ensures
            c.ticket_view() == self.ticket_view(),
            self matches ReadyPriority::Contended(old_c) ==> c == old_c,
    {
        match self {
            ReadyPriority::Normal(ticket) => ticket.contended(),
            ReadyPriority::Contended(ticket) => ticket,
        }
    }
}

/// The rules that steer the scheduler from measured arrival rates and rating
/// proportions: which window a ticket should reach, and how long a ticket that
/// formed no matching should wait before it is tried again. Implementations
/// work on floating-point estimates; the scheduler holds whatever they return
/// to the bounds it enforces itself.
pub trait SchedulingPolicy {
    /// Records a batch of `batch_size` requests that arrived at
    /// `arrival_timestamp` (nanoseconds since the Unix epoch).
    fn record_new_request_batch(&mut self, arrival_timestamp: u64, batch_size: usize);

    /// Records that `batch_size` requests were matched.
    fn record_new_assignment_batch(&mut self, batch_size: usize);

    /// The reach that the window of `ticket` should have.
    fn target_delta(
        &self,
        ticket: &Ticket,
        bookkeeping: &SchedulerBookkeeping,
        queue_parameters: &MatchmakingQueueParameters,
        local_feedback: &GroundAllocationSessionSummary,
    ) -> usize;

    /// How long, in nanoseconds, `ticket` should wait before it is tried again.
    fn backoff_duration(
        &self,
        ticket: &Ticket,
        bookkeeping: &SchedulerBookkeeping,
        queue_parameters: &MatchmakingQueueParameters,
        local_feedback: &GroundAllocationSessionSummary,
    ) -> u64;
}

pub struct SchedulerBookkeeping {
    /// Per bucket, the requests posted and not yet drained by a matching.
    pub bucket_request_counts: Vec<usize>,
    pub assigned_ticket_count: usize,
}

pub struct SchedulerDiagnostics {
    pub total_request_count: usize,
    pub total_filled_request_count: usize,
    pub per_bucket_request_count: Vec<usize>,
    pub ready_count: usize,
    pub assigned_count: usize,
    pub waiting_count: usize,
    pub contended_count: usize,
    pub empty_count: usize,
    pub contention_lane_view: Vec<Vec<usize>>,
}

/// A ticket that the scheduler can hand out: its anchor names a bucket, and
/// its window reaches no further than the queue allows nor than a window's
/// offsets go.
pub open spec fn ticket_in_range(t: TicketView, bucket_count: int, delta_ceiling: int) -> bool {
    &&& t.anchor < bucket_count
    &&& t.delta <= delta_ceiling
    &&& t.delta <= i32::MAX
}

/// The bucket a request belongs to.
pub open spec fn anchor_of(request: MatchmakingRequest, bucket_width: u32) -> int {
    (request.skill_rating / bucket_width) as int
}

/// The bucket counts once the counts drained by a session on the window
/// anchored at `anchor` are taken off.
pub open spec fn counts_after_drain(counts: Seq<usize>, drained: OffsetView<usize>, anchor: int) -> Seq<usize> {
    Seq::new(
        counts.len(),
        |i: int|
            if drained.covers(i - anchor) {
                (counts[i] - drained.get(i - anchor)->0) as usize
            } else {
                counts[i]
            },
    )
}

/// How many of `views` are anchored at each bucket.
pub open spec fn anchors_of(views: Seq<TicketView>) -> Multiset<usize> {
    views.map_values(|t: TicketView| t.anchor).to_multiset()
}

pub open spec fn ready_views(tickets: Seq<ReadyPriority>) -> Seq<TicketView> {
    tickets.map_values(|t: ReadyPriority| t.ticket_view())
}

pub open spec fn waiting_views(tickets: Seq<Waiting>) -> Seq<TicketView> {
    tickets.map_values(|t: Waiting| t.ticket_view())
}

pub open spec fn contender_views(tickets: Seq<Contended>) -> Seq<TicketView> {
    tickets.map_values(|t: Contended| t.ticket_view())
}

proof fn lemma_anchors_empty(views: Seq<TicketView>)
    requires
        views.len() == 0,
    ensures
        anchors_of(views) == Multiset::<usize>::empty(),
{
    broadcast use vstd::seq_lib::group_to_multiset_ensures;
    broadcast use vstd::multiset::lemma_multiset_empty_len;

    assert(views.map_values(|t: TicketView| t.anchor).len() == 0);
}

proof fn lemma_count_insert(m: Multiset<usize>, x: usize, b: usize)
    ensures
        m.insert(x).count(b) == m.count(b) + (if x == b { 1int } else { 0int }),
{
    broadcast use vstd::multiset::group_multiset_axioms;
    broadcast use vstd::multiset::group_multiset_properties;

}

proof fn lemma_count_remove(m: Multiset<usize>, x: usize, b: usize)
    requires
        m.count(x) > 0,
    ensures
        m.remove(x).count(b) == m.count(b) - (if x == b { 1int } else { 0int }),
{
    broadcast use vstd::multiset::group_multiset_axioms;
    broadcast use vstd::multiset::group_multiset_properties;

}

proof fn lemma_count_add(m1: Multiset<usize>, m2: Multiset<usize>, b: usize)
    ensures
        m1.add(m2).count(b) == m1.count(b) + m2.count(b),
{
    broadcast use vstd::multiset::group_multiset_axioms;

}

proof fn lemma_anchors_contains(views: Seq<TicketView>, k: int)
    requires
        0 <= k < views.len(),
    ensures
        anchors_of(views).count(views[k].anchor) > 0,
{
    broadcast use vstd::seq_lib::group_to_multiset_ensures;

    let f = |t: TicketView| t.anchor;
    assert(views.map_values(f)[k] == views[k].anchor);
    assert(views.map_values(f).contains(views[k].anchor));
}

/// A ticket anchored at `x` leaves one lane and joins another: every count
/// stays as it was.
proof fn lemma_count_moved(from: Multiset<usize>, to: Multiset<usize>, x: usize, b: usize)
    requires
        from.count(x) > 0,
    ensures
        from.remove(x).count(b) + to.insert(x).count(b) == from.count(b) + to.count(b),
{
    lemma_count_remove(from, x, b);
    lemma_count_insert(to, x, b);
}

proof fn lemma_anchors_push(views: Seq<TicketView>, v: TicketView)
    ensures
        anchors_of(views.push(v)) == anchors_of(views).insert(v.anchor),
{
    broadcast use vstd::seq_lib::group_to_multiset_ensures;

    let f = |t: TicketView| t.anchor;
    assert(views.push(v).map_values(f) =~= views.map_values(f).push(v.anchor));
}

proof fn lemma_anchors_remove(views: Seq<TicketView>, k: int)
    requires
        0 <= k < views.len(),
    ensures
        anchors_of(views.remove(k)) == anchors_of(views).remove(views[k].anchor),
{
    broadcast use vstd::seq_lib::group_to_multiset_ensures;

    let f = |t: TicketView| t.anchor;
    assert(views.remove(k).map_values(f) =~= views.map_values(f).remove(k));
}

proof fn lemma_anchors_concat(a: Seq<TicketView>, b: Seq<TicketView>)
    ensures
        anchors_of(a + b) == anchors_of(a).add(anchors_of(b)),
{
    let f = |t: TicketView| t.anchor;
    assert((a + b).map_values(f) =~= a.map_values(f) + b.map_values(f));
    vstd::seq_lib::lemma_multiset_commutative(a.map_values(f), b.map_values(f));
}

/// Queueing a ticket behind one bucket adds its anchor to the contenders'.
proof fn lemma_anchors_contend(lists: Seq<Seq<Contended>>, i: int, c: Contended)
    requires
        0 <= i < lists.len(),
    ensures
        anchors_of(contender_views(lists.update(i, lists[i].push(c)).flatten())) == anchors_of(
            contender_views(lists.flatten()),
        ).insert(c.ticket_view().anchor),
{
    let after = lists.update(i, lists[i].push(c));
    let n = lists.len() as int;
    lemma_flatten_split(lists, i, i + 1);
    lemma_flatten_split(after, i, i + 1);
    assert(after.subrange(0, i) =~= lists.subrange(0, i));
    assert(after.subrange(i + 1, n) =~= lists.subrange(i + 1, n));
    lists.subrange(i, i + 1).lemma_flatten_one_element();
    after.subrange(i, i + 1).lemma_flatten_one_element();
    let head = contender_views(lists.subrange(0, i).flatten());
    let tail = contender_views(lists.subrange(i + 1, n).flatten());
    let mid = contender_views(lists[i]);
    assert(contender_views(lists.flatten()) =~= head + mid + tail);
    assert(contender_views(after.flatten()) =~= head + mid.push(c.ticket_view()) + tail);
    lemma_anchors_concat(head + mid, tail);
    lemma_anchors_concat(head, mid);
    lemma_anchors_concat(head + mid.push(c.ticket_view()), tail);
    lemma_anchors_concat(head, mid.push(c.ticket_view()));
    lemma_anchors_push(mid, c.ticket_view());
    assert(anchors_of(contender_views(after.flatten())) =~= anchors_of(contender_views(lists.flatten())).insert(
        c.ticket_view().anchor,
    ));
}

/// Clearing the lists of buckets `[start, end)` takes their tickets' anchors
/// out of the contenders'.
proof fn lemma_anchors_flush(lists: Seq<Seq<Contended>>, after: Seq<Seq<Contended>>, start: int, end: int)
    requires
        0 <= start <= end <= lists.len(),
        after.len() == lists.len(),
        forall|j: int| 0 <= j < lists.len() ==> #[trigger] after[j] == (if start <= j < end {
            Seq::<Contended>::empty()
        } else {
            lists[j]
        }),
    ensures
        anchors_of(contender_views(lists.flatten())) == anchors_of(contender_views(after.flatten())).add(
            anchors_of(contender_views(contenders_in(lists, start, end))),
        ),
{
    let n = lists.len() as int;
    lemma_flatten_split(lists, start, end);
    lemma_flatten_split(after, start, end);
    assert(after.subrange(0, start) =~= lists.subrange(0, start));
    assert(after.subrange(end, n) =~= lists.subrange(end, n));
    lemma_flatten_empties(after.subrange(start, end));
    let head = contender_views(lists.subrange(0, start).flatten());
    let tail = contender_views(lists.subrange(end, n).flatten());
    let mid = contender_views(lists.subrange(start, end).flatten());
    assert(contender_views(lists.flatten()) =~= head + mid + tail);
    assert(contender_views(after.flatten()) =~= head + tail);
    if start == end {
        assert(lists.subrange(start, end) =~= Seq::<Seq<Contended>>::empty());
    }
    assert(contender_views(contenders_in(lists, start, end)) =~= mid);
    lemma_anchors_concat(head + mid, tail);
    lemma_anchors_concat(head, mid);
    lemma_anchors_concat(head, tail);
    assert(anchors_of(contender_views(lists.flatten())) =~= anchors_of(contender_views(after.flatten())).add(
        anchors_of(contender_views(contenders_in(lists, start, end))),
    ));
}

/// How many tickets anchored at bucket `a` there are among the ready, the
/// waiting, the contending, the empty slots (slot `a` holds bucket `a`'s) and
/// the buckets whose ticket is out on assignment.
pub open spec fn tickets_in(
    ready: Seq<ReadyPriority>,
    waiting: Seq<Waiting>,
    contenders: Seq<Seq<Contended>>,
    slots: Seq<Option<TicketView>>,
    lent: Seq<bool>,
    a: int,
) -> int {
    anchors_of(ready_views(ready)).count(a as usize) + anchors_of(waiting_views(waiting)).count(a as usize)
        + anchors_of(contender_views(contenders.flatten())).count(a as usize) + (if slots[a] is Some {
        1int
    } else {
        0int
    }) + (if lent[a] {
        1int
    } else {
        0int
    })
}

/// Every bucket has exactly one ticket, wherever it is.
pub open spec fn one_ticket_per_bucket(
    ready: Seq<ReadyPriority>,
    waiting: Seq<Waiting>,
    contenders: Seq<Seq<Contended>>,
    slots: Seq<Option<TicketView>>,
    lent: Seq<bool>,
) -> bool {
    forall|a: int| 0 <= a < slots.len() ==> #[trigger] tickets_in(ready, waiting, contenders, slots, lent, a) == 1
}

/// Every contended ticket, ready or in a contention lane, began contending
/// no later than `clock`.
pub open spec fn contention_starts_by(ready: Seq<ReadyPriority>, lanes: Seq<Seq<Contended>>, clock: u64) -> bool {
    &&& forall|i: int|
        0 <= i < ready.len() ==> ((#[trigger] ready[i]) matches ReadyPriority::Contended(c) ==> c.contention_start()
            <= clock)
    &&& forall|i: int, j: int|
        0 <= i < lanes.len() && 0 <= j < lanes[i].len() ==> (#[trigger] lanes[i][j]).contention_start() <= clock
}

/// `x`, or `usize::MAX` where `x` exceeds it.
pub open spec fn capped(x: int) -> int {
    if x <= usize::MAX {
        x
    } else {
        usize::MAX as int
    }
}

/// The most matchings that one ground allocation session may form.
pub const RESIDENCY_LIMIT: usize = 300;

/// Core scheduling table for a single matchmaking queue.
pub struct SchedulingTable<P: SchedulingPolicy> {
    request_matrix: RequestMatrix,
    postbox: Postbox,
    contention_lane: Contention,
    ready_queue: ReadyQueue,
    waiting_lane: WaitingLane,
    empty_hold: EmptyHold,
    bookkeeping: SchedulerBookkeeping,
    queue_parameters: MatchmakingQueueParameters,
    policy: P,
    total_requests_received: usize,
    total_requests_assigned: usize,
    /// Per bucket, whether its ticket is out on assignment.
    assigned_anchors: Vec<bool>,
    /// The latest clock reading the table has acted on; it never goes back.
    clock: u64,
}

impl<P: SchedulingPolicy> SchedulingTable<P> {
    pub closed spec fn parameters(&self) -> QueueParametersView {
        self.queue_parameters@
    }

    /// The scheduling policy the table consults.
    pub closed spec fn policy(&self) -> P {
        self.policy
    }

    /// The bookkeeping the table hands the policy.
    pub closed spec fn bookkeeping(&self) -> SchedulerBookkeeping {
        self.bookkeeping
    }

    /// The queue parameters the table hands the policy.
    pub closed spec fn queue_parameters(&self) -> MatchmakingQueueParameters {
        self.queue_parameters
    }

    pub closed spec fn bucket_count(&self) -> int {
        self.queue_parameters@.skill_rating_range as int / self.queue_parameters@.bucket_width as int
    }

    pub closed spec fn counts(&self) -> Seq<usize> {
        self.bookkeeping.bucket_request_counts@
    }

    pub closed spec fn buckets(&self) -> Seq<Option<RequestBucket>> {
        self.request_matrix@
    }

    pub closed spec fn ready(&self) -> Seq<ReadyPriority> {
        self.ready_queue@
    }

    pub closed spec fn waiting(&self) -> Seq<Waiting> {
        self.waiting_lane@
    }

    pub closed spec fn contenders(&self) -> Seq<Seq<Contended>> {
        self.contention_lane@
    }

    pub closed spec fn empty_slots(&self) -> Seq<Option<TicketView>> {
        self.empty_hold.slots()
    }

    pub closed spec fn assigned(&self) -> int {
        self.bookkeeping.assigned_ticket_count as int
    }

    /// Requests received over the table's life (saturating).
    pub closed spec fn requests_received(&self) -> int {
        self.total_requests_received as int
    }

    /// Requests matched over the table's life (saturating).
    pub closed spec fn requests_assigned(&self) -> int {
        self.total_requests_assigned as int
    }

    /// Every push of a request into a bucket, in order: the bucket, the
    /// request, and whether the bucket took it.
    pub closed spec fn post_log(&self) -> Seq<(usize, MatchmakingRequest, bool)> {
        self.postbox.pushes()
    }

    /// The latest clock reading the table has acted on: every contention
    /// start it has stamped is no later, and it never goes back.
    pub closed spec fn clock(&self) -> u64 {
        self.clock
    }

    /// Per bucket, whether its ticket is out on assignment.
    pub closed spec fn out_on_assignment(&self) -> Seq<bool> {
        self.assigned_anchors@
    }

    /// How many tickets anchored at bucket `a` the table knows of: ready,
    /// waiting, contending, held empty, or out on assignment.
    #[verifier::inline]
    pub open spec fn tickets_at(&self, a: int) -> int {
        tickets_in(self.ready(), self.waiting(), self.contenders(), self.empty_slots(), self.out_on_assignment(), a)
    }

    /// Every ticket is in exactly one lane: the number of tickets ready,
    /// waiting, contending, empty or assigned is the number of buckets.
    pub open spec fn ticket_total(&self) -> int {
        self.ready().len() + self.waiting().len() + self.contenders().flatten().len() + count_some(
            self.empty_slots(),
        ) + self.assigned()
    }

    pub closed spec fn wf(&self) -> bool {
        let n = self.bucket_count();
        let ceiling = self.queue_parameters@.delta_ceiling as int;
        let rpm = self.queue_parameters@.requests_per_matching as int;
        &&& valid_parameters(self.queue_parameters@)
        &&& n <= i32::MAX
        &&& contention_starts_by(self.ready(), self.contenders(), self.clock)
        &&& self.request_matrix@.len() == n
        &&& self.postbox.len() == n
        &&& self.bookkeeping.bucket_request_counts@.len() == n
        &&& self.contention_lane@.len() == n
        &&& self.empty_hold.wf()
        &&& self.empty_hold.slots().len() == n
        &&& forall|i: int| 0 <= i < n ==> #[trigger] self.bookkeeping.bucket_request_counts@[i] + rpm <= usize::MAX
        &&& forall|i: int| 0 <= i < self.ready_queue@.len() ==> ticket_in_range(
            (#[trigger] self.ready_queue@[i]).ticket_view(),
            n,
            ceiling,
        )
        &&& forall|i: int| 0 <= i < self.waiting_lane@.len() ==> ticket_in_range(
            (#[trigger] self.waiting_lane@[i]).ticket_view(),
            n,
            ceiling,
        )
        &&& forall|i: int, j: int| 0 <= i < n && 0 <= j < self.contention_lane@[i].len() ==> ticket_in_range(
            (#[trigger] self.contention_lane@[i][j]).ticket_view(),
            n,
            ceiling,
        )
        &&& forall|i: int| 0 <= i < n ==> ((#[trigger] self.empty_hold.slots()[i]) matches Some(t) ==> ticket_in_range(t, n, ceiling))
        &&& self.ticket_total() == n
        &&& self.assigned_anchors@.len() == n
        &&& forall|i: int| 0 <= i < n ==> ((#[trigger] self.empty_hold.slots()[i]) matches Some(t) ==> t.anchor == i)
        &&& one_ticket_per_bucket(
            self.ready(),
            self.waiting(),
            self.contenders(),
            self.empty_slots(),
            self.out_on_assignment(),
        )
    }
}

/// Every ticket is somewhere, once: in a well-formed table each bucket has
/// exactly one ticket, ready, waiting, contending, held empty or out on
/// assignment; together they number one per bucket; and each of them names a
/// bucket and a reach the table hands out.
pub proof fn lemma_tickets_conserved<P: SchedulingPolicy>(table: SchedulingTable<P>)
    requires
        table.wf(),
    ensures
        forall|a: int| 0 <= a < table.bucket_count() ==> #[trigger] table.tickets_at(a) == 1,
        table.ready().len() + table.waiting().len() + table.contenders().flatten().len() + count_some(
            table.empty_slots(),
        ) + table.assigned() == table.bucket_count(),
        forall|i: int|
            0 <= i < table.ready().len() ==> ticket_in_range(
                (#[trigger] table.ready()[i]).ticket_view(),
                table.bucket_count(),
                table.parameters().delta_ceiling as int,
            ),
        forall|i: int|
            0 <= i < table.waiting().len() ==> ticket_in_range(
                (#[trigger] table.waiting()[i]).ticket_view(),
                table.bucket_count(),
                table.parameters().delta_ceiling as int,
            ),
        forall|i: int|
            0 <= i < table.bucket_count() ==> ((#[trigger] table.empty_slots()[i]) matches Some(t) ==> ticket_in_range(
                t,
                table.bucket_count(),
                table.parameters().delta_ceiling as int,
            )),
{
}

impl<P: SchedulingPolicy> SchedulingTable<P> {
    /// A table with one empty ticket and one free bucket per anchor.
    pub fn new(queue_parameters: MatchmakingQueueParameters, policy: P) -> (table: Self)
        requires
            queue_parameters@.skill_rating_range / queue_parameters@.bucket_width <= i32::MAX,
        ensures
            table.wf(),
            table.parameters() == queue_parameters@,
            table.ready().len() == 0,
            table.waiting().len() == 0,
            table.assigned() == 0,
            table.requests_received() == 0,
            table.requests_assigned() == 0,
            forall|i: int| 0 <= i < table.bucket_count() ==> #[trigger] table.counts()[i] == 0,
            forall|i: int| 0 <= i < table.bucket_count() ==> (#[trigger] table.buckets()[i]) is Some,
            forall|i: int| 0 <= i < table.bucket_count() ==> (#[trigger] table.contenders()[i]).len() == 0,
            forall|i: int|
                0 <= i < table.bucket_count() ==> #[trigger] table.empty_slots()[i] == Some(
                    TicketView { anchor: i as usize, delta: 0, oldest: None },
                ),
    {
        let bucket_count = queue_parameters.bucket_count();
        let bucket_capacity = queue_parameters.bucket_capacity();
        let (request_matrix, postbox) = RequestMatrix::new(bucket_count, bucket_capacity);
        let bucket_request_counts: Vec<usize> = vec![0; bucket_count];
        let empty_hold = EmptyHold::new_with_issue(bucket_count);
        let contention_lane = Contention::new(bucket_count);
        let table = SchedulingTable {
            request_matrix,
            postbox,
            contention_lane,
            ready_queue: ReadyQueue::with_capacity(bucket_count),
            waiting_lane: WaitingLane::with_capacity(bucket_count),
            empty_hold,
            bookkeeping: SchedulerBookkeeping { bucket_request_counts, assigned_ticket_count: 0 },
            queue_parameters,
            policy,
            total_requests_received: 0,
            total_requests_assigned: 0,
            assigned_anchors: vec![false; bucket_count],
            clock: 0,
        };
        proof {
            lemma_flatten_empties(table.contention_lane@);
            assert forall|a: int| 0 <= a < table.bucket_count() implies #[trigger] table.tickets_at(a) == 1 by {
                lemma_anchors_empty(ready_views(table.ready()));
                lemma_anchors_empty(waiting_views(table.waiting()));
                lemma_anchors_empty(contender_views(table.contenders().flatten()));
                assert(table.empty_slots()[a] is Some);
            }
        }
        table
    }
}

impl<P: SchedulingPolicy> SchedulingTable<P> {
    /// Reads the clock, going no further back than the latest reading the
    /// table has acted on.
    fn tick(&mut self) -> (t: u64)
        requires
            old(self).wf(),
        ensures
            final(self).wf(),
            t == final(self).clock(),
            t >= old(self).clock(),
            *final(self) == (SchedulingTable { clock: t, ..*old(self) }),
    {
        let reading = now();
        if reading > self.clock {
            self.clock = reading;
        }
        self.clock
    }
}

/// Contention follows the clock: in a well-formed table every contended
/// ticket, ready or queued behind a bucket, began contending no later than the
/// table's clock, so a ticket put into contention now, stamped with the clock,
/// comes after every ticket already contending.
pub proof fn lemma_contention_started_by_clock<P: SchedulingPolicy>(table: SchedulingTable<P>)
    requires
        table.wf(),
    ensures
        forall|i: int|
            0 <= i < table.ready().len() ==> ((#[trigger] table.ready()[i]) matches ReadyPriority::Contended(c)
                ==> c.contention_start() <= table.clock()),
        forall|i: int, j: int|
            0 <= i < table.contenders().len() && 0 <= j < table.contenders()[i].len() ==> (
            #[trigger] table.contenders()[i][j]).contention_start() <= table.clock(),
{
}

/// Number of requests among `requests` that belong to bucket `b`.
pub open spec fn requests_to(requests: Seq<MatchmakingRequest>, b: int, bucket_width: u32) -> nat
    decreases requests.len(),
{
    if requests.len() == 0 {
        0
    } else {
        requests_to(requests.drop_last(), b, bucket_width) + (if anchor_of(requests.last(), bucket_width) == b {
            1nat
        } else {
            0nat
        })
    }
}

/// What posting `request` may answer: an unknown bucket, or a full one.
pub open spec fn post_error_for(error: PostError, request: MatchmakingRequest, bucket_width: u32, bucket_count: int) -> bool {
    let a = anchor_of(request, bucket_width);
    match error {
        PostError::InvalidIndex(i) => i == a && a >= bucket_count,
        PostError::BucketFull(i, r) => i == a && r == request && a < bucket_count,
    }
}

/// Whether `error` is what posting one of `requests` may answer.
pub open spec fn explained_by(error: PostError, requests: Seq<MatchmakingRequest>, bucket_width: u32, bucket_count: int) -> bool {
    exists|i: int| 0 <= i < requests.len() && post_error_for(error, requests[i], bucket_width, bucket_count)
}

/// What posting `requests` in order does, given the counts before and, in
/// order, whether each bucket a request was pushed into took it: the pushes
/// made (bucket, request, taken), the errors answered, one per request that
/// failed, in order, and the counts after. A request of an unknown bucket is
/// answered `InvalidIndex`; one whose bucket's count leaves no room to account
/// for a matching is answered `BucketFull` unpushed; any other is pushed into
/// its bucket, counted when taken and answered `BucketFull` when not.
pub open spec fn posting(
    requests: Seq<MatchmakingRequest>,
    taken: Seq<bool>,
    counts: Seq<usize>,
    bucket_width: u32,
    rpm: int,
) -> (Seq<(usize, MatchmakingRequest, bool)>, Seq<PostError>, Seq<usize>)
    decreases requests.len(),
{
    if requests.len() == 0 {
        (Seq::empty(), Seq::empty(), counts)
    } else {
        let prior = posting(requests.drop_last(), taken, counts, bucket_width, rpm);
        let request = requests.last();
        let a = anchor_of(request, bucket_width);
        let c = prior.2;
        if a >= c.len() {
            (prior.0, prior.1.push(PostError::InvalidIndex(a as usize)), c)
        } else if c[a] >= usize::MAX - rpm {
            (prior.0, prior.1.push(PostError::BucketFull(a as usize, request)), c)
        } else if taken[prior.0.len() as int] {
            (prior.0.push((a as usize, request, true)), prior.1, c.update(a, (c[a] + 1) as usize))
        } else {
            (prior.0.push((a as usize, request, false)), prior.1.push(PostError::BucketFull(a as usize, request)), c)
        }
    }
}

/// The empty tickets that the pushes `pushes` wake, in order, given the empty
/// hold `slots` before them, and the empty hold after: the first push a
/// bucket takes wakes the ticket held empty for it, its oldest request being
/// the one pushed; every other push wakes nothing.
pub open spec fn woken_by(
    pushes: Seq<(usize, MatchmakingRequest, bool)>,
    slots: Seq<Option<TicketView>>,
) -> (Seq<TicketView>, Seq<Option<TicketView>>)
    decreases pushes.len(),
{
    if pushes.len() == 0 {
        (Seq::empty(), slots)
    } else {
        let prior = woken_by(pushes.drop_last(), slots);
        let p = pushes.last();
        let a = p.0 as int;
        if p.2 && a < prior.1.len() && prior.1[a] is Some {
            (
                prior.0.push(TicketView { oldest: Some(p.1.submission_timestamp), ..prior.1[a]->0 }),
                prior.1.update(a, None),
            )
        } else {
            (prior.0, prior.1)
        }
    }
}

/// Whether `after` is `before` followed, as normal tickets, by the tickets
/// of `views`, in order.
pub open spec fn readied(before: Seq<ReadyPriority>, after: Seq<ReadyPriority>, views: Seq<TicketView>) -> bool {
    &&& after.len() == before.len() + views.len()
    &&& after.subrange(0, before.len() as int) == before
    &&& forall|k: int|
        0 <= k < views.len() ==> (#[trigger] after[before.len() + k]) is Normal && after[before.len() + k].ticket_view()
            == views[k]
}

/// Readying one run of tickets and then another readies both, in order.
proof fn lemma_readied_then(
    a: Seq<ReadyPriority>,
    b: Seq<ReadyPriority>,
    c: Seq<ReadyPriority>,
    first: Seq<TicketView>,
    second: Seq<TicketView>,
)
    requires
        readied(a, b, first),
        readied(b, c, second),
    ensures
        readied(a, c, first + second),
{
    assert(c.subrange(0, a.len() as int) =~= c.subrange(0, b.len() as int).subrange(0, a.len() as int));
    assert forall|k: int| 0 <= k < (first + second).len() implies (#[trigger] c[a.len() + k]) is Normal
        && c[a.len() + k].ticket_view() == (first + second)[k] by {
        if k < first.len() {
            assert(c[a.len() + k] == c.subrange(0, b.len() as int)[a.len() + k]);
            assert(b[a.len() + k] == c[a.len() + k]);
        } else {
            assert(c[a.len() + k] == c[b.len() + (k - first.len())]);
        }
    }
}

/// Whether each push of `pushes` was taken.
pub open spec fn taken_of(pushes: Seq<(usize, MatchmakingRequest, bool)>) -> Seq<bool> {
    pushes.map_values(|p: (usize, MatchmakingRequest, bool)| p.2)
}

/// Posting depends on whether a push was taken only for the pushes it makes:
/// answers beyond them change nothing.
proof fn lemma_posting_extends(
    requests: Seq<MatchmakingRequest>,
    taken: Seq<bool>,
    more: Seq<bool>,
    counts: Seq<usize>,
    bucket_width: u32,
    rpm: int,
)
    requires
        posting(requests, taken, counts, bucket_width, rpm).0.len() <= taken.len(),
        more.len() >= taken.len(),
        more.subrange(0, taken.len() as int) == taken,
    ensures
        posting(requests, more, counts, bucket_width, rpm) == posting(requests, taken, counts, bucket_width, rpm),
    decreases requests.len(),
{
    if requests.len() > 0 {
        let prior = posting(requests.drop_last(), taken, counts, bucket_width, rpm);
        assert(prior.0.len() <= posting(requests, taken, counts, bucket_width, rpm).0.len());
        lemma_posting_extends(requests.drop_last(), taken, more, counts, bucket_width, rpm);
        if prior.0.len() < taken.len() {
            assert(more[prior.0.len() as int] == more.subrange(0, taken.len() as int)[prior.0.len() as int]);
        }
    }
}

impl<P: SchedulingPolicy> SchedulingTable<P> {
    /// Posts a single request into its bucket; an empty ticket of that bucket
    /// becomes ready, its oldest request being this one. Does not record the
    /// batch.
    fn post_request_raw(&mut self, request: MatchmakingRequest) -> (r: Result<(), PostError>)
        requires
            old(self).wf(),
        ensures
            final(self).wf(),
            final(self).parameters() == old(self).parameters(),
            final(self).buckets() == old(self).buckets(),
            final(self).waiting() == old(self).waiting(),
            final(self).contenders() == old(self).contenders(),
            final(self).assigned() == old(self).assigned(),
            final(self).total_requests_received == old(self).total_requests_received,
            final(self).clock == old(self).clock,
            final(self).total_requests_assigned == old(self).total_requests_assigned,
            final(self).ready().len() >= old(self).ready().len(),
            final(self).ready().subrange(0, old(self).ready().len() as int) == old(self).ready(),
            ({
                let a = anchor_of(request, old(self).parameters().bucket_width);
                let rpm = old(self).parameters().requests_per_matching as int;
                &&& a >= old(self).counts().len() ==> r == Err::<(), PostError>(PostError::InvalidIndex(a as usize))
                    && final(self).post_log() == old(self).post_log()
                &&& a < old(self).counts().len() && old(self).counts()[a] >= usize::MAX - rpm ==> r == Err::<(), PostError>(
                    PostError::BucketFull(a as usize, request),
                ) && final(self).post_log() == old(self).post_log()
                &&& a < old(self).counts().len() && old(self).counts()[a] < usize::MAX - rpm ==> final(self).post_log()
                    == old(self).post_log().push((a as usize, request, r is Ok)) && (r is Err ==> r == Err::<(), PostError>(
                    PostError::BucketFull(a as usize, request),
                ))
            }),
            ({
                let a = anchor_of(request, old(self).parameters().bucket_width);
                match r {
                    Ok(()) => {
                        &&& a < old(self).bucket_count()
                        &&& final(self).counts() == old(self).counts().update(a, (old(self).counts()[a] + 1) as usize)
                        &&& final(self).empty_slots() == old(self).empty_slots().update(a, None)
                        &&& match old(self).empty_slots()[a] {
                            Some(t) => final(self).ready() == old(self).ready().push(ReadyPriority::Normal(final(self).ready().last()->Normal_0))
                                && final(self).ready().last()->Normal_0.ticket_view() == (TicketView {
                                    oldest: Some(request.submission_timestamp),
                                    ..t
                                }),
                            None => final(self).ready() == old(self).ready(),
                        }
                    },
                    Err(e) => {
                        &&& post_error_for(e, request, old(self).parameters().bucket_width, old(self).bucket_count())
                        &&& final(self).counts() == old(self).counts()
                        &&& final(self).empty_slots() == old(self).empty_slots()
                        &&& final(self).ready() == old(self).ready()
                    },
                }
            }),
    {
        let anchor_bucket_index = (request.skill_rating / self.queue_parameters.bucket_width()) as usize;
        let rpm = self.queue_parameters.requests_per_matching();
        if anchor_bucket_index < self.bookkeeping.bucket_request_counts.len()
            && self.bookkeeping.bucket_request_counts[anchor_bucket_index] >= usize::MAX - rpm {
            // The count would leave no room to account for a matching.
            return Err(PostError::BucketFull(anchor_bucket_index, request));
        }
        if let Err(post_error) = self.postbox.try_post(anchor_bucket_index, request) {
            proof {
                assert forall|a: int| 0 <= a < self.bucket_count() implies #[trigger] self.tickets_at(a) == 1 by {
                    assert(old(self).tickets_at(a) == 1);
                }
            }
            return Err(post_error);
        }
        let count = self.bookkeeping.bucket_request_counts[anchor_bucket_index];
        self.bookkeeping.bucket_request_counts.set(anchor_bucket_index, count + 1);
        let ghost slots = self.empty_hold.slots();
        let ghost ready = self.ready_queue@;
        match self.empty_hold.take(anchor_bucket_index) {
            Some(ticket) => {
                let mut ticket = ticket;
                ticket.set_oldest_request_timestamp(Some(request.submission_timestamp));
                self.ready_queue.push(ReadyPriority::Normal(ticket.ready()));
                proof {
                    assert forall|i: int| 0 <= i < self.ready_queue@.len() implies ticket_in_range(
                        (#[trigger] self.ready_queue@[i]).ticket_view(),
                        self.bucket_count(),
                        self.queue_parameters@.delta_ceiling as int,
                    ) by {
                        if i < ready.len() {
                            assert(self.ready_queue@[i] == ready[i]);
                        }
                    }
                    assert(ready_views(self.ready_queue@) =~= ready_views(ready).push(self.ready_queue@.last().ticket_view()));
                    lemma_anchors_push(ready_views(ready), self.ready_queue@.last().ticket_view());
                }
            },
            None => {},
        }
        proof {
            assert forall|i: int| 0 <= i < self.bucket_count() implies ((#[trigger] self.empty_hold.slots()[i]) matches Some(t)
                ==> ticket_in_range(t, self.bucket_count(), self.queue_parameters@.delta_ceiling as int) && t.anchor == i) by {
                if i != anchor_bucket_index {
                    assert(self.empty_hold.slots()[i] == slots[i]);
                }
            }
            assert forall|b: int| 0 <= b < self.bucket_count() implies #[trigger] self.tickets_at(b) == 1 by {
                assert(old(self).tickets_at(b) == 1);
                if slots[anchor_bucket_index as int] is Some {
                    lemma_count_insert(anchors_of(ready_views(ready)), anchor_bucket_index, b as usize);
                    if b != anchor_bucket_index {
                        assert(self.empty_hold.slots()[b] == slots[b]);
                    }
                }
            }
            let n = self.bucket_count();
            let rpm = self.queue_parameters@.requests_per_matching as int;
            assert forall|i: int| 0 <= i < n implies #[trigger] self.bookkeeping.bucket_request_counts@[i] + rpm <= usize::MAX by {
            }
        }
        Ok(())
    }
}

/// Whether a waiting ticket is still not due at `now`.
pub open spec fn not_due(now: u64) -> spec_fn(Waiting) -> bool {
    |w: Waiting| w.readmission() > now
}

/// Whether flushing the waiting lane `before` at `now` leaves `after` and
/// moves `moved`: the tickets not yet due stay, in order; the ones due by
/// `now` move, earliest due first.
pub open spec fn flushed(before: Seq<Waiting>, after: Seq<Waiting>, moved: Seq<Waiting>, now: u64) -> bool {
    &&& after == before.filter(not_due(now))
    &&& before.to_multiset() == after.to_multiset().add(moved.to_multiset())
    &&& forall|k: int| 0 <= k < moved.len() ==> (#[trigger] moved[k]).readmission() <= now
    &&& forall|i: int, j: int|
        0 <= i < j < moved.len() ==> (#[trigger] moved[i]).readmission() <= (#[trigger] moved[j]).readmission()
}

/// Removing an element that a filter drops leaves the filtered sequence as
/// it was.
proof fn lemma_filter_remove_dropped<A>(s: Seq<A>, p: spec_fn(A) -> bool, k: int)
    requires
        0 <= k < s.len(),
        !p(s[k]),
    ensures
        s.remove(k).filter(p) == s.filter(p),
{
    broadcast use Seq::filter_distributes_over_add;

    let a = s.take(k);
    let b = s.skip(k + 1);
    assert(s =~= a + seq![s[k]] + b);
    assert(s.remove(k) =~= a + b);
    assert(seq![s[k]] =~= Seq::<A>::empty().push(s[k]));
    Seq::<A>::empty().lemma_filter_push(s[k], p);
    assert(Seq::<A>::empty().filter(p) =~= Seq::<A>::empty()) by {
        broadcast use vstd::seq_lib::group_filter_ensures;
    }
    assert((a + seq![s[k]]).filter(p) =~= a.filter(p));
}

/// A filter that keeps every element keeps the sequence.
proof fn lemma_filter_keeps_all<A>(s: Seq<A>, p: spec_fn(A) -> bool)
    requires
        forall|i: int| 0 <= i < s.len() ==> p(#[trigger] s[i]),
    ensures
        s.filter(p) == s,
    decreases s.len(),
{
    if s.len() == 0 {
        broadcast use vstd::seq_lib::group_filter_ensures;

        assert(s.filter(p) =~= s);
    } else {
        lemma_filter_keeps_all(s.drop_last(), p);
        assert(s =~= s.drop_last().push(s.last()));
        s.drop_last().lemma_filter_push(s.last(), p);
    }
}

impl<P: SchedulingPolicy> SchedulingTable<P> {
    /// Moves every waiting ticket due by `now` to the ready queue.
    fn flush_waiting_lane_at(&mut self, now: u64)
        requires
            old(self).wf(),
        ensures
            final(self).wf(),
            final(self).parameters() == old(self).parameters(),
            final(self).counts() == old(self).counts(),
            final(self).buckets() == old(self).buckets(),
            final(self).contenders() == old(self).contenders(),
            final(self).empty_slots() == old(self).empty_slots(),
            final(self).assigned() == old(self).assigned(),
            final(self).post_log() == old(self).post_log(),
            final(self).clock() == old(self).clock(),
            final(self).total_requests_received == old(self).total_requests_received,
            final(self).total_requests_assigned == old(self).total_requests_assigned,
            final(self).ready().len() - old(self).ready().len() == old(self).waiting().len() - final(self).waiting().len(),
            final(self).ready().len() >= old(self).ready().len(),
            final(self).ready().subrange(0, old(self).ready().len() as int) == old(self).ready(),
            forall|i: int|
                old(self).ready().len() <= i < final(self).ready().len() ==> (#[trigger] final(self).ready()[i]) is Normal,
            forall|i: int| 0 <= i < final(self).waiting().len() ==> (#[trigger] final(self).waiting()[i]).readmission() > now,
            exists|moved: Seq<Waiting>|
                flushed(old(self).waiting(), final(self).waiting(), moved, now) && readied(
                    old(self).ready(),
                    final(self).ready(),
                    waiting_views(moved),
                ),
    {
        let ghost ready0 = self.ready_queue@;
        let ghost waiting0 = self.waiting_lane@;
        let ghost mut moved: Seq<Waiting> = Seq::empty();
        proof {
            assert(ready0.subrange(0, ready0.len() as int) =~= ready0);
            assert(waiting0.to_multiset() =~= waiting0.to_multiset().add(moved.to_multiset())) by {
                broadcast use vstd::multiset::group_multiset_axioms;
                vstd::seq_lib::to_multiset_len(moved);
                vstd::multiset::lemma_multiset_empty_len(moved.to_multiset());
                assert(moved.to_multiset() =~= Multiset::<Waiting>::empty());
            }
        }
        loop
            invariant
                self.wf(),
                self.queue_parameters@ == old(self).queue_parameters@,
                self.bookkeeping.bucket_request_counts@ == old(self).bookkeeping.bucket_request_counts@,
                self.request_matrix@ == old(self).request_matrix@,
                self.contention_lane@ == old(self).contention_lane@,
                self.empty_hold.slots() == old(self).empty_hold.slots(),
                self.bookkeeping.assigned_ticket_count == old(self).bookkeeping.assigned_ticket_count,
                self.postbox.pushes() == old(self).postbox.pushes(),
                self.clock == old(self).clock,
                self.total_requests_received == old(self).total_requests_received,
                self.total_requests_assigned == old(self).total_requests_assigned,
                ready0 == old(self).ready_queue@,
                waiting0 == old(self).waiting_lane@,
                self.ready_queue@.len() - ready0.len() == waiting0.len() - self.waiting_lane@.len(),
                self.ready_queue@.len() >= ready0.len(),
                self.ready_queue@.subrange(0, ready0.len() as int) == ready0,
                forall|i: int| ready0.len() <= i < self.ready_queue@.len() ==> (#[trigger] self.ready_queue@[i]) is Normal,
                self.waiting_lane@.filter(not_due(now)) == waiting0.filter(not_due(now)),
                waiting0.to_multiset() == self.waiting_lane@.to_multiset().add(moved.to_multiset()),
                forall|k: int| 0 <= k < moved.len() ==> (#[trigger] moved[k]).readmission() <= now,
                forall|i: int, j: int|
                    0 <= i < j < moved.len() ==> (#[trigger] moved[i]).readmission() <= (#[trigger] moved[j]).readmission(),
                forall|k: int, i: int|
                    0 <= k < moved.len() && 0 <= i < self.waiting_lane@.len() ==> (#[trigger] moved[k]).readmission()
                        <= (#[trigger] self.waiting_lane@[i]).readmission(),
                readied(ready0, self.ready_queue@, waiting_views(moved)),
            ensures
                self.wf(),
                self.queue_parameters@ == old(self).queue_parameters@,
                self.bookkeeping.bucket_request_counts@ == old(self).bookkeeping.bucket_request_counts@,
                self.request_matrix@ == old(self).request_matrix@,
                self.contention_lane@ == old(self).contention_lane@,
                self.empty_hold.slots() == old(self).empty_hold.slots(),
                self.bookkeeping.assigned_ticket_count == old(self).bookkeeping.assigned_ticket_count,
                self.postbox.pushes() == old(self).postbox.pushes(),
                self.clock == old(self).clock,
                self.total_requests_received == old(self).total_requests_received,
                self.total_requests_assigned == old(self).total_requests_assigned,
                self.ready_queue@.len() - ready0.len() == waiting0.len() - self.waiting_lane@.len(),
                self.ready_queue@.len() >= ready0.len(),
                self.ready_queue@.subrange(0, ready0.len() as int) == ready0,
                forall|i: int| ready0.len() <= i < self.ready_queue@.len() ==> (#[trigger] self.ready_queue@[i]) is Normal,
                forall|i: int| 0 <= i < self.waiting_lane@.len() ==> (#[trigger] self.waiting_lane@[i]).readmission() > now,
                self.waiting_lane@.filter(not_due(now)) == waiting0.filter(not_due(now)),
                waiting0.to_multiset() == self.waiting_lane@.to_multiset().add(moved.to_multiset()),
                forall|k: int| 0 <= k < moved.len() ==> (#[trigger] moved[k]).readmission() <= now,
                forall|i: int, j: int|
                    0 <= i < j < moved.len() ==> (#[trigger] moved[i]).readmission() <= (#[trigger] moved[j]).readmission(),
                forall|k: int, i: int|
                    0 <= k < moved.len() && 0 <= i < self.waiting_lane@.len() ==> (#[trigger] moved[k]).readmission()
                        <= (#[trigger] self.waiting_lane@[i]).readmission(),
                readied(ready0, self.ready_queue@, waiting_views(moved)),
            decreases self.waiting_lane@.len(),
        {
            let due = match self.waiting_lane.peek() {
                Some(ticket) => ticket.next_readmission_timestamp() <= now,
                None => false,
            };
            if !due {
                break;
            }
            let ghost waiting = self.waiting_lane@;
            let ghost ready = self.ready_queue@;
            let ghost prev = *self;
            let ticket = self.waiting_lane.pop().unwrap();
            let normal = ticket.ready();
            self.ready_queue.push(ReadyPriority::Normal(normal));
            let ghost moved0 = moved;
            proof {
                moved = moved.push(ticket);
            }
            proof {
                let n = self.bucket_count();
                let ceiling = self.queue_parameters@.delta_ceiling as int;
                let k = choose|k: int| 0 <= k < waiting.len() && waiting[k] == ticket && self.waiting_lane@ == waiting.remove(k);
                assert(ticket_in_range(waiting[k].ticket_view(), n, ceiling));
                assert forall|i: int| 0 <= i < self.ready_queue@.len() implies ticket_in_range(
                    (#[trigger] self.ready_queue@[i]).ticket_view(), n, ceiling) by {
                    if i < ready.len() {
                        assert(self.ready_queue@[i] == ready[i]);
                    }
                }
                assert forall|i: int| 0 <= i < self.waiting_lane@.len() implies ticket_in_range(
                    (#[trigger] self.waiting_lane@[i]).ticket_view(), n, ceiling) by {
                    if i < k {
                        assert(self.waiting_lane@[i] == waiting[i]);
                    } else {
                        assert(self.waiting_lane@[i] == waiting[i + 1]);
                    }
                }
                assert(self.ready_queue@ == ready.push(ReadyPriority::Normal(normal)));
                assert(self.ready_queue@.subrange(0, ready0.len() as int) =~= ready.subrange(0, ready0.len() as int));
                assert(waiting_views(self.waiting_lane@) =~= waiting_views(waiting).remove(k));
                lemma_anchors_remove(waiting_views(waiting), k);
                lemma_anchors_contains(waiting_views(waiting), k);
                assert(ready_views(self.ready_queue@) =~= ready_views(ready).push(normal.ticket_view()));
                lemma_anchors_push(ready_views(ready), normal.ticket_view());
                let x = waiting[k].ticket_view().anchor;
                assert(prev.wf());
                assert forall|b: int| 0 <= b < n implies #[trigger] self.tickets_at(b) == 1 by {
                    assert(prev.tickets_at(b) == 1);
                    lemma_count_moved(anchors_of(waiting_views(waiting)), anchors_of(ready_views(ready)), x, b as usize);
                }
                assert(!not_due(now)(waiting[k]));
                lemma_filter_remove_dropped(waiting, not_due(now), k);
                vstd::seq_lib::to_multiset_remove(waiting, k);
                vstd::seq_lib::to_multiset_build(moved0, ticket);
                assert(waiting0.to_multiset() =~= self.waiting_lane@.to_multiset().add(moved.to_multiset())) by {
                    broadcast use vstd::multiset::group_multiset_axioms;
                    assert(waiting.to_multiset().count(ticket) > 0) by {
                        vstd::seq_lib::to_multiset_contains(waiting, ticket);
                        assert(waiting.contains(ticket));
                    }
                }
                assert forall|i: int, j: int| 0 <= i < j < moved.len() implies (#[trigger] moved[i]).readmission()
                    <= (#[trigger] moved[j]).readmission() by {
                    if j == moved.len() - 1 {
                        assert(moved[i] == moved0[i]);
                        assert(moved0[i].readmission() <= waiting[k].readmission());
                    } else {
                        assert(moved[i] == moved0[i] && moved[j] == moved0[j]);
                    }
                }
                assert forall|kk: int, i: int| 0 <= kk < moved.len() && 0 <= i < self.waiting_lane@.len() implies (#[trigger] moved[kk]).readmission()
                    <= (#[trigger] self.waiting_lane@[i]).readmission() by {
                    let ii = if i < k { i } else { i + 1 };
                    assert(self.waiting_lane@[i] == waiting[ii]);
                    if kk < moved0.len() {
                        assert(moved[kk] == moved0[kk]);
                    } else {
                        assert(waiting_precedes(ticket, waiting[ii]));
                    }
                }
                assert forall|kk: int| 0 <= kk < moved.len() implies (#[trigger] moved[kk]).readmission() <= now by {
                    if kk < moved0.len() {
                        assert(moved[kk] == moved0[kk]);
                    }
                }
                assert(waiting_views(moved) =~= waiting_views(moved0).push(ticket.ticket_view()));
                assert(self.ready_queue@.subrange(0, ready0.len() as int) =~= ready.subrange(0, ready0.len() as int));
                assert forall|kk: int| 0 <= kk < waiting_views(moved).len() implies (#[trigger] self.ready_queue@[ready0.len() + kk]) is Normal
                    && self.ready_queue@[ready0.len() + kk].ticket_view() == waiting_views(moved)[kk] by {
                    if kk < moved0.len() {
                        assert(self.ready_queue@[ready0.len() + kk] == ready[ready0.len() + kk]);
                    }
                }
            }
        }
        proof {
            lemma_filter_keeps_all(self.waiting_lane@, not_due(now));
            assert(flushed(waiting0, self.waiting_lane@, moved, now));
        }
    }

    /// Posts an entire batch of requests that arrived at `arrival_timestamp`
    /// and records the batch. Every request is tried; the ones that failed to
    /// post are reported, in order.
    pub fn post_request_batch_at(&mut self, requests: Vec<MatchmakingRequest>, arrival_timestamp: u64) -> (r:
        Result<(), Vec<PostError>>)
        requires
            old(self).wf(),
        ensures
            final(self).wf(),
            final(self).parameters() == old(self).parameters(),
            final(self).buckets() == old(self).buckets(),
            final(self).contenders() == old(self).contenders(),
            final(self).assigned() == old(self).assigned(),
            final(self).requests_received() == capped(old(self).requests_received() + requests@.len()),
            final(self).requests_assigned() == old(self).requests_assigned(),
            final(self).waiting() == old(self).waiting(),
            final(self).clock() == old(self).clock(),
            final(self).ready().len() >= old(self).ready().len(),
            final(self).ready().subrange(0, old(self).ready().len() as int) == old(self).ready(),
            ({
                let width = old(self).parameters().bucket_width;
                let n = old(self).bucket_count();
                &&& forall|b: int| 0 <= b < n ==> old(self).counts()[b] <= #[trigger] final(self).counts()[b]
                    <= old(self).counts()[b] + requests_to(requests@, b, width)
                &&& r is Ok ==> forall|b: int| 0 <= b < n ==> #[trigger] final(self).counts()[b] == old(self).counts()[b]
                    + requests_to(requests@, b, width)
                &&& forall|i: int| 0 <= i < requests@.len() && anchor_of(#[trigger] requests@[i], width) >= n ==> r is Err
                &&& r matches Err(errors) ==> errors@.len() > 0 && errors@.len() <= requests@.len() && forall|j: int|
                    0 <= j < errors@.len() ==> explained_by(#[trigger] errors@[j], requests@, width, n)
                &&& forall|b: int| 0 <= b < n && old(self).empty_slots()[b] is Some && final(self).counts()[b]
                    > old(self).counts()[b] ==> (#[trigger] final(self).empty_slots()[b]) is None && exists|i: int|
                    0 <= i < final(self).ready().len() && (#[trigger] final(self).ready()[i]).ticket_view().anchor == b
                &&& forall|b: int| 0 <= b < n && final(self).counts()[b] == old(self).counts()[b]
                    ==> #[trigger] final(self).empty_slots()[b] == old(self).empty_slots()[b]
            }),
            ({
                let l0 = old(self).post_log();
                let l1 = final(self).post_log();
                let pushed = l1.subrange(l0.len() as int, l1.len() as int);
                let outcome = posting(
                    requests@,
                    taken_of(pushed),
                    old(self).counts(),
                    old(self).parameters().bucket_width,
                    old(self).parameters().requests_per_matching as int,
                );
                let woken = woken_by(pushed, old(self).empty_slots());
                &&& l1.len() >= l0.len()
                &&& l1.subrange(0, l0.len() as int) == l0
                &&& pushed == outcome.0
                &&& final(self).empty_slots() == woken.1
                &&& readied(old(self).ready(), final(self).ready(), woken.0)
                &&& final(self).counts() == outcome.2
                &&& match r {
                    Ok(()) => outcome.1.len() == 0,
                    Err(errors) => errors@ == outcome.1 && outcome.1.len() > 0,
                }
            }),
    {
        let full_batch_size = requests.len();
        let ghost width = self.queue_parameters@.bucket_width;
        let ghost n = self.bucket_count();
        let ghost counts0 = self.bookkeeping.bucket_request_counts@;
        let ghost slots0 = self.empty_hold.slots();
        let mut errors: Vec<PostError> = Vec::new();
        let ghost mut sources: Seq<int> = Seq::empty();
        let ghost log0 = self.postbox.pushes();
        let ghost rpm = self.queue_parameters@.requests_per_matching as int;
        proof {
            assert(self.ready_queue@.subrange(0, self.ready_queue@.len() as int) =~= self.ready_queue@);
            assert(log0.subrange(log0.len() as int, log0.len() as int) =~= Seq::<(usize, MatchmakingRequest, bool)>::empty());
        }
        for request in it: requests
            invariant
                log0 == old(self).postbox.pushes(),
                self.clock == old(self).clock,
                self.waiting_lane@ == old(self).waiting_lane@,
                self.ready_queue@.len() >= old(self).ready_queue@.len(),
                self.ready_queue@.subrange(0, old(self).ready_queue@.len() as int) == old(self).ready_queue@,
                rpm == self.queue_parameters@.requests_per_matching as int,
                self.postbox.pushes().len() >= log0.len(),
                self.empty_hold.slots() == woken_by(
                    self.postbox.pushes().subrange(log0.len() as int, self.postbox.pushes().len() as int),
                    slots0,
                ).1,
                readied(
                    old(self).ready_queue@,
                    self.ready_queue@,
                    woken_by(self.postbox.pushes().subrange(log0.len() as int, self.postbox.pushes().len() as int), slots0).0,
                ),
                self.postbox.pushes().subrange(0, log0.len() as int) == log0,
                posting(
                    requests@.subrange(0, it.index() as int),
                    taken_of(self.postbox.pushes().subrange(log0.len() as int, self.postbox.pushes().len() as int)),
                    counts0,
                    width,
                    rpm,
                ) == (self.postbox.pushes().subrange(log0.len() as int, self.postbox.pushes().len() as int), errors@, self.bookkeeping.bucket_request_counts@),
                self.wf(),
                self.queue_parameters@ == old(self).queue_parameters@,
                self.request_matrix@ == old(self).request_matrix@,
                self.contention_lane@ == old(self).contention_lane@,
                self.bookkeeping.assigned_ticket_count == old(self).bookkeeping.assigned_ticket_count,
                self.total_requests_received == old(self).total_requests_received,
                self.total_requests_assigned == old(self).total_requests_assigned,
                width == self.queue_parameters@.bucket_width,
                n == self.bucket_count(),
                counts0 == old(self).bookkeeping.bucket_request_counts@,
                slots0 == old(self).empty_hold.slots(),
                counts0.len() == n,
                slots0.len() == n,
                it.seq() == requests@,
                forall|b: int| 0 <= b < n ==> counts0[b] <= #[trigger] self.bookkeeping.bucket_request_counts@[b]
                    <= counts0[b] + requests_to(requests@.subrange(0, it.index() as int), b, width),
                errors@.len() == 0 ==> forall|b: int| 0 <= b < n ==> #[trigger] self.bookkeeping.bucket_request_counts@[b]
                    == counts0[b] + requests_to(requests@.subrange(0, it.index() as int), b, width),
                forall|i: int| 0 <= i < it.index() && anchor_of(#[trigger] requests@[i], width) >= n ==> errors@.len() > 0,
                errors@.len() <= it.index(),
                sources.len() == errors@.len(),
                forall|j: int|
                    0 <= j < errors@.len() ==> 0 <= #[trigger] sources[j] < it.index() && post_error_for(
                        errors@[j],
                        requests@[sources[j]],
                        width,
                        n,
                    ),
                forall|b: int| 0 <= b < n && slots0[b] is Some && self.bookkeeping.bucket_request_counts@[b] > counts0[b]
                    ==> (#[trigger] self.empty_hold.slots()[b]) is None && exists|k: int|
                    0 <= k < self.ready_queue@.len() && (#[trigger] self.ready_queue@[k]).ticket_view().anchor == b,
                forall|b: int| 0 <= b < n && self.bookkeeping.bucket_request_counts@[b] == counts0[b]
                    ==> #[trigger] self.empty_hold.slots()[b] == slots0[b],
        {
            let ghost i = it.index();
            let ghost counts = self.bookkeeping.bucket_request_counts@;
            let ghost slots = self.empty_hold.slots();
            proof {
                assert(requests@.subrange(0, i + 1).drop_last() =~= requests@.subrange(0, i as int));
                assert(requests@.subrange(0, i + 1).last() == request);
            }
            let ghost ready_before = self.ready_queue@;
            let ghost log_before = self.postbox.pushes();
            let ghost pushed_before = log_before.subrange(log0.len() as int, log_before.len() as int);
            let ghost errors_before = errors@;
            let outcome = self.post_request_raw(request);
            proof {
                assert(self.ready_queue@.subrange(0, old(self).ready_queue@.len() as int) =~= ready_before.subrange(
                    0, old(self).ready_queue@.len() as int));
                let log_after = self.postbox.pushes();
                let pushed_after = log_after.subrange(log0.len() as int, log_after.len() as int);
                assert(log_after.subrange(0, log0.len() as int) =~= log_before.subrange(0, log0.len() as int));
                let r0 = old(self).ready_queue@;
                let wb = woken_by(pushed_before, slots0);
                if log_after.len() > log_before.len() {
                    assert(pushed_after =~= pushed_before.push(log_after.last()));
                    assert(pushed_after.drop_last() =~= pushed_before);
                    let wa = woken_by(pushed_after, slots0);
                    if self.ready_queue@.len() > ready_before.len() {
                        assert(self.ready_queue@ =~= ready_before.push(self.ready_queue@.last()));
                        assert(wa.0 == wb.0.push(self.ready_queue@.last().ticket_view()));
                        assert(self.ready_queue@.subrange(0, r0.len() as int) =~= ready_before.subrange(0, r0.len() as int));
                        assert forall|k: int| 0 <= k < wa.0.len() implies (#[trigger] self.ready_queue@[r0.len() + k]) is Normal
                            && self.ready_queue@[r0.len() + k].ticket_view() == wa.0[k] by {
                            if k < wb.0.len() {
                                assert(self.ready_queue@[r0.len() + k] == ready_before[r0.len() + k]);
                            }
                        }
                    } else {
                        assert(self.ready_queue@ =~= ready_before);
                        assert(wa.0 == wb.0);
                    }
                } else {
                    assert(pushed_after =~= pushed_before);
                }
                assert(taken_of(pushed_after).subrange(0, taken_of(pushed_before).len() as int) =~= taken_of(pushed_before));
                lemma_posting_extends(
                    requests@.subrange(0, i as int),
                    taken_of(pushed_before),
                    taken_of(pushed_after),
                    counts0,
                    width,
                    rpm,
                );
            }
            match outcome {
                Ok(_) => {},
                Err(post_error) => {
                    errors.push(post_error);
                    proof { sources = sources.push(i); }
                },
            }
        }
        proof {
            assert(requests@.subrange(0, requests@.len() as int) =~= requests@);
            assert forall|j: int| 0 <= j < errors@.len() implies explained_by(#[trigger] errors@[j], requests@, width, n) by {
                assert(0 <= sources[j] < requests@.len());
                assert(post_error_for(errors@[j], requests@[sources[j]], width, n));
            }
            assert(width == old(self).parameters().bucket_width);
            assert(n == old(self).bucket_count());
        }
        self.total_requests_received = self.total_requests_received.saturating_add(full_batch_size);
        self.policy.record_new_request_batch(arrival_timestamp, full_batch_size);
        if errors.len() == 0 {
            Ok(())
        } else {
            Err(errors)
        }
    }

    /// Posts an entire batch of requests arriving now (see
    /// `post_request_batch_at`), then readies every waiting ticket due by the
    /// time the batch is posted.
    pub fn post_request_batch(&mut self, requests: Vec<MatchmakingRequest>) -> (r: Result<(), Vec<PostError>>)
        requires
            old(self).wf(),
        ensures
            final(self).wf(),
            final(self).parameters() == old(self).parameters(),
            final(self).buckets() == old(self).buckets(),
            final(self).contenders() == old(self).contenders(),
            final(self).assigned() == old(self).assigned(),
            final(self).requests_received() == capped(old(self).requests_received() + requests@.len()),
            final(self).requests_assigned() == old(self).requests_assigned(),
            forall|i: int|
                0 <= i < requests@.len() && anchor_of(#[trigger] requests@[i], old(self).parameters().bucket_width)
                    >= old(self).bucket_count() ==> r is Err,
            r is Ok ==> forall|b: int|
                0 <= b < old(self).bucket_count() ==> #[trigger] final(self).counts()[b] == old(self).counts()[b]
                    + requests_to(requests@, b, old(self).parameters().bucket_width),
            forall|b: int|
                0 <= b < old(self).bucket_count() && old(self).empty_slots()[b] is Some && final(self).counts()[b]
                    > old(self).counts()[b] ==> (#[trigger] final(self).empty_slots()[b]) is None && exists|i: int|
                    0 <= i < final(self).ready().len() && (#[trigger] final(self).ready()[i]).ticket_view().anchor == b,
            ({
                let l0 = old(self).post_log();
                let l1 = final(self).post_log();
                let pushed = l1.subrange(l0.len() as int, l1.len() as int);
                let outcome = posting(
                    requests@,
                    taken_of(pushed),
                    old(self).counts(),
                    old(self).parameters().bucket_width,
                    old(self).parameters().requests_per_matching as int,
                );
                let woken = woken_by(pushed, old(self).empty_slots());
                &&& l1.len() >= l0.len()
                &&& l1.subrange(0, l0.len() as int) == l0
                &&& pushed == outcome.0
                &&& final(self).empty_slots() == woken.1
                &&& final(self).clock() >= old(self).clock()
                &&& forall|i: int| 0 <= i < final(self).waiting().len() ==> (#[trigger] final(self).waiting()[i]).readmission()
                    > final(self).clock()
                &&& exists|moved: Seq<Waiting>|
                    flushed(old(self).waiting(), final(self).waiting(), moved, final(self).clock()) && readied(
                        old(self).ready(),
                        final(self).ready(),
                        woken.0 + waiting_views(moved),
                    )
                &&& exists|flush_time: u64, moved: Seq<Waiting>|
                    flushed(old(self).waiting(), final(self).waiting(), moved, flush_time) && readied(
                        old(self).ready(),
                        final(self).ready(),
                        woken.0 + waiting_views(moved),
                    )
                &&& final(self).counts() == outcome.2
                &&& match r {
                    Ok(()) => outcome.1.len() == 0,
                    Err(errors) => errors@ == outcome.1 && outcome.1.len() > 0,
                }
            }),
    {
        let arrival_timestamp = self.tick();
        let posted = self.post_request_batch_at(requests, arrival_timestamp);
        let flush_timestamp = self.tick();
        let ghost mid = *self;
        self.flush_waiting_lane_at(flush_timestamp);
        proof {
            let l0 = old(self).post_log();
            let l1 = mid.post_log();
            let pushed = l1.subrange(l0.len() as int, l1.len() as int);
            let woken = woken_by(pushed, old(self).empty_slots());
            let moved = choose|moved: Seq<Waiting>|
                flushed(mid.waiting(), self.waiting(), moved, flush_timestamp) && readied(
                    mid.ready(),
                    self.ready(),
                    waiting_views(moved),
                );
            lemma_readied_then(old(self).ready(), mid.ready(), self.ready(), woken.0, waiting_views(moved));
            assert(flushed(old(self).waiting(), self.waiting(), moved, flush_timestamp));
        }
        proof {
            assert forall|b: int| 0 <= b < old(self).bucket_count() && old(self).empty_slots()[b] is Some
                && self.counts()[b] > old(self).counts()[b] implies (#[trigger] self.empty_slots()[b]) is None
                && exists|i: int| 0 <= i < self.ready().len() && (#[trigger] self.ready()[i]).ticket_view().anchor == b by {
                let i = choose|i: int| 0 <= i < mid.ready().len() && (#[trigger] mid.ready()[i]).ticket_view().anchor == b;
                assert(self.ready()[i] == self.ready().subrange(0, mid.ready().len() as int)[i]);
            }
        }
        posted
    }
}

/// Whether `b` is the first bucket of the window of `t` that is leased out in
/// `slots`, the bucket whose lane the ticket waits in.
pub open spec fn blocked_at(slots: Seq<Option<RequestBucket>>, t: TicketView, b: int) -> bool {
    let start = window_lo(t.anchor as int, t.delta as int);
    first_absent(slots, start, start + clipped_window(slots, t.anchor as int, t.delta as int).items.len(), b)
}

/// `c` is the ready ticket `r` put into contention at `now`: a normal ticket
/// contended from `now` on, a contended one as it was.
pub open spec fn contended_form(r: ReadyPriority, now: u64, c: Contended) -> bool {
    match r {
        ReadyPriority::Normal(n) => c.ticket_view() == n.ticket_view() && c.contention_start() == now,
        ReadyPriority::Contended(x) => c == x,
    }
}

/// `after` is the contention lane `before` with tickets queued behind each
/// bucket's: each one of the ready tickets `ready`, put into contention at
/// `now`, in the lane of the first bucket of its window that `slots` shows
/// leased out.
pub open spec fn contended_behind(
    before: Seq<Seq<Contended>>,
    after: Seq<Seq<Contended>>,
    ready: Seq<ReadyPriority>,
    slots: Seq<Option<RequestBucket>>,
    now: u64,
) -> bool {
    &&& after.len() == before.len()
    &&& forall|b: int|
        0 <= b < before.len() ==> (#[trigger] after[b]).len() >= before[b].len() && after[b].subrange(
            0,
            before[b].len() as int,
        ) == before[b]
    &&& forall|b: int, j: int|
        0 <= b < before.len() && before[b].len() <= j < after[b].len() ==> blocked_at(
            slots,
            (#[trigger] after[b][j]).ticket_view(),
            b,
        ) && exists|i: int| 0 <= i < ready.len() && contended_form(#[trigger] ready[i], now, after[b][j])
}

impl<P: SchedulingPolicy> SchedulingTable<P> {
    /// Assigns the next ticket whose whole window can be leased, if any.
    /// Tickets taken from the ready queue whose window is partly leased out
    /// contend, from `now` on, for the first bucket of their window that is
    /// leased out.
    pub fn next_assignment_at(&mut self, now: u64) -> (r: Option<Assigned>)
        requires
            old(self).wf(),
        ensures
            final(self).wf(),
            final(self).parameters() == old(self).parameters(),
            final(self).counts() == old(self).counts(),
            final(self).waiting() == old(self).waiting(),
            final(self).empty_slots() == old(self).empty_slots(),
            final(self).requests_received() == old(self).requests_received(),
            final(self).requests_assigned() == old(self).requests_assigned(),
            final(self).ready().len() <= old(self).ready().len(),
            final(self).post_log() == old(self).post_log(),
            final(self).clock() == (if now > old(self).clock() { now } else { old(self).clock() }),
            forall|i: int| 0 <= i < final(self).ready().len() ==> old(self).ready().contains(#[trigger] final(self).ready()[i]),
            contended_behind(old(self).contenders(), final(self).contenders(), old(self).ready(), old(self).buckets(), now),
            all_present(old(self).buckets(), 0, old(self).bucket_count()) ==> final(self).contenders() == old(self).contenders(),
            r is None ==> final(self).ready().len() == 0 && final(self).assigned() == old(self).assigned()
                && final(self).buckets() == old(self).buckets(),
            r matches Some(a) ==> {
                &&& final(self).assigned() == old(self).assigned() + 1
                &&& exists|k: int|
                    0 <= k < old(self).ready().len() && (#[trigger] old(self).ready()[k]).ticket_view() == a.ticket@
                        && forall|j: int| 0 <= j < final(self).ready().len() ==> ready_precedes(old(self).ready()[k], #[trigger] final(self).ready()[j])
                &&& a.lease@ == lease_of(old(self).buckets(), a.ticket@.anchor as int, a.ticket@.delta as int)
                &&& final(self).buckets() == leased(old(self).buckets(), a.ticket@.anchor as int, a.ticket@.delta as int)
                &&& can_allocate(a)
                &&& ticket_in_range(a.ticket@, old(self).bucket_count(), old(self).parameters().delta_ceiling as int)
                &&& a.ground_allocation_control_signals.maximum_matchings == RESIDENCY_LIMIT
                &&& a.ground_allocation_control_signals.requests_per_matching == old(self).parameters().requests_per_matching
                &&& a.ground_allocation_control_signals.window_eligible_request_counts@ == clipped_window(
                    old(self).counts(),
                    a.ticket@.anchor as int,
                    a.ticket@.delta as int,
                )
            },
    {
        if now > self.clock {
            self.clock = now;
        }
        proof {
            let lanes = self.contention_lane@;
            assert forall|b: int| 0 <= b < lanes.len() implies (#[trigger] lanes[b]).subrange(0, lanes[b].len() as int)
                == lanes[b] by {
                assert(lanes[b].subrange(0, lanes[b].len() as int) =~= lanes[b]);
            }
        }
        loop
            invariant
                self.wf(),
                self.queue_parameters@ == old(self).queue_parameters@,
                self.bookkeeping.bucket_request_counts@ == old(self).bookkeeping.bucket_request_counts@,
                self.waiting_lane@ == old(self).waiting_lane@,
                self.empty_hold.slots() == old(self).empty_hold.slots(),
                self.bookkeeping.assigned_ticket_count == old(self).bookkeeping.assigned_ticket_count,
                self.total_requests_received == old(self).total_requests_received,
                self.total_requests_assigned == old(self).total_requests_assigned,
                self.ready_queue@.len() <= old(self).ready_queue@.len(),
                self.request_matrix@ == old(self).request_matrix@,
                self.postbox.pushes() == old(self).postbox.pushes(),
                self.clock == (if now > old(self).clock { now } else { old(self).clock }),
                contended_behind(old(self).contention_lane@, self.contention_lane@, old(self).ready_queue@, old(self).request_matrix@, now),
                all_present(old(self).request_matrix@, 0, self.bucket_count()) ==> self.contention_lane@ == old(self).contention_lane@,
                forall|i: int| 0 <= i < self.ready_queue@.len() ==> old(self).ready_queue@.contains(
                    #[trigger] self.ready_queue@[i],
                ),
            decreases self.ready_queue@.len(),
        {
            let ghost ready = self.ready_queue@;
            let ghost contenders = self.contention_lane@;
            let ghost prev = *self;
            let ticket = match self.ready_queue.pop() {
                Some(ticket) => ticket,
                None => return None,
            };
            let ghost n = self.bucket_count();
            let ghost ceiling = self.queue_parameters@.delta_ceiling as int;
            let ghost k = choose|k: int| 0 <= k < ready.len() && ready[k] == ticket && self.ready_queue@ == ready.remove(k);
            let ghost x = ticket.ticket_view().anchor;
            proof {
                assert(ticket_in_range(ready[k].ticket_view(), n, ceiling));
                assert(prev.wf());
                assert(ready_views(self.ready_queue@) =~= ready_views(ready).remove(k));
                lemma_anchors_remove(ready_views(ready), k);
                lemma_anchors_contains(ready_views(ready), k);
                assert(old(self).ready_queue@.contains(ready[k]));
                assert(old(self).ready_queue@.contains(ticket));
                assert forall|i: int| 0 <= i < self.ready_queue@.len() implies old(self).ready_queue@.contains(
                    #[trigger] self.ready_queue@[i]) by {
                    if i < k {
                        assert(self.ready_queue@[i] == ready[i]);
                    } else {
                        assert(self.ready_queue@[i] == ready[i + 1]);
                    }
                }
                assert forall|i: int| 0 <= i < self.ready_queue@.len() implies ticket_in_range(
                    (#[trigger] self.ready_queue@[i]).ticket_view(), n, ceiling) by {
                    if i < k {
                        assert(self.ready_queue@[i] == ready[i]);
                    } else {
                        assert(self.ready_queue@[i] == ready[i + 1]);
                    }
                }
            }
            let ghost popped = ticket;
            let anchor_bucket_index = ticket.peek().anchor_bucket_index();
            let delta = ticket.peek().delta();
            match Lease::try_acquire(&mut self.request_matrix, anchor_bucket_index, delta) {
                Ok(lease) => {
                    let window_eligible_request_counts = OffsetIndexedSlice::from_slice(
                        self.bookkeeping.bucket_request_counts.as_slice(),
                        anchor_bucket_index,
                        delta,
                    ).unwrap();
                    proof {
                        crate::matchmaking::utils::lemma_clipped_window_items(
                            self.request_matrix@, anchor_bucket_index as int, delta as int);
                        crate::matchmaking::utils::lemma_clipped_window_items(
                            old(self).request_matrix@, anchor_bucket_index as int, delta as int);
                        crate::matchmaking::utils::lemma_clipped_window_items(
                            self.bookkeeping.bucket_request_counts@, anchor_bucket_index as int, delta as int);
                        crate::matchmaking::utils::lemma_clipped_window_get(
                            self.bookkeeping.bucket_request_counts@, anchor_bucket_index as int, delta as int, 0);
                    }
                    let signals = GroundAllocationControlSignals {
                        maximum_matchings: RESIDENCY_LIMIT,
                        requests_per_matching: self.queue_parameters.requests_per_matching(),
                        window_eligible_request_counts,
                    };
                    self.bookkeeping.assigned_ticket_count = self.bookkeeping.assigned_ticket_count + 1;
                    let assigned = ticket.assign(lease, signals);
                    proof {
                        let counts = self.bookkeeping.bucket_request_counts@;
                        let w = signals.window_eligible_request_counts@;
                        assert(w.get(0) is Some);
                        assert(cloned::<usize>(counts[anchor_bucket_index as int], w.get(0)->0));
                        assert(w.get(0)->0 == counts[anchor_bucket_index as int]);
                        let cw = clipped_window(counts, anchor_bucket_index as int, delta as int);
                        assert forall|k: int| 0 <= k < w.items.len() implies w.items[k] == cw.items[k] by {
                            assert(cloned::<usize>(cw.items[k], w.items[k]));
                        }
                        assert(w.items =~= cw.items);
                        let j = choose|j: int| 0 <= j < old(self).ready_queue@.len() && old(self).ready_queue@[j] == popped;
                        assert(old(self).ready()[j].ticket_view() == assigned.ticket@);
                        assert forall|i: int| 0 <= i < self.ready_queue@.len() implies ready_precedes(
                            old(self).ready()[j], #[trigger] self.ready_queue@[i]) by {
                            if i < k {
                                assert(self.ready_queue@[i] == ready[i]);
                            } else {
                                assert(self.ready_queue@[i] == ready[i + 1]);
                            }
                        }
                        assert(prev.tickets_at(x as int) == 1);
                        assert(!prev.assigned_anchors@[x as int]);
                    }
                    self.assigned_anchors.set(anchor_bucket_index, true);
                    proof {
                        assert forall|b: int| 0 <= b < n implies #[trigger] self.tickets_at(b) == 1 by {
                            assert(prev.tickets_at(b) == 1);
                            lemma_count_remove(anchors_of(ready_views(ready)), x, b as usize);
                        }
                    }
                    return Some(assigned);
                },
                Err(LeaseError::ContentionError(contended_bucket_index)) => {
                    let contended = ticket.contend_at(now);
                    self.contention_lane.contend_ticket(contended, contended_bucket_index);
                    proof {
                        let before = old(self).contention_lane@;
                        let after = self.contention_lane@;
                        let cb = contended_bucket_index as int;
                        assert(contended.contention_start() <= self.clock) by {
                            assert(ready[k] == popped);
                        }
                        assert forall|i: int, j: int| 0 <= i < after.len() && 0 <= j < after[i].len() implies (#[trigger] after[i][j]).contention_start()
                            <= self.clock by {
                            if i != cb || j < contenders[i].len() {
                                assert(after[i][j] == contenders[i][j]);
                            }
                        }
                        assert forall|i: int| 0 <= i < self.ready_queue@.len() implies ((#[trigger] self.ready_queue@[i]) matches ReadyPriority::Contended(c) ==> c.contention_start()
                            <= self.clock) by {
                            if i < k {
                                assert(self.ready_queue@[i] == ready[i]);
                            } else {
                                assert(self.ready_queue@[i] == ready[i + 1]);
                            }
                        }
                        assert(old(self).ready_queue@.contains(popped));
                        let i0 = choose|i0: int| 0 <= i0 < old(self).ready_queue@.len() && old(self).ready_queue@[i0] == popped;
                        assert(contended_form(old(self).ready_queue@[i0], now, contended));
                        assert(blocked_at(old(self).request_matrix@, contended.ticket_view(), cb));
                        assert forall|b: int| 0 <= b < before.len() implies (#[trigger] after[b]).len() >= before[b].len()
                            && after[b].subrange(0, before[b].len() as int) == before[b] by {
                            if b == cb {
                                assert(after[b].subrange(0, before[b].len() as int) =~= contenders[b].subrange(0, before[b].len() as int));
                            }
                        }
                        assert forall|b: int, j: int| 0 <= b < before.len() && before[b].len() <= j < after[b].len() implies blocked_at(
                            old(self).request_matrix@, (#[trigger] after[b][j]).ticket_view(), b)
                            && exists|i: int| 0 <= i < old(self).ready_queue@.len() && contended_form(#[trigger] old(self).ready_queue@[i], now, after[b][j]) by {
                            if b != cb || j < contenders[b].len() {
                                assert(after[b][j] == contenders[b][j]);
                            } else {
                                assert(after[b][j] == contended);
                            }
                        }
                        if all_present(old(self).request_matrix@, 0, n) {
                            assert(old(self).request_matrix@[cb] is Some);
                            assert(false);
                        }
                        assert forall|i: int, j: int| 0 <= i < n && 0 <= j < self.contention_lane@[i].len() implies ticket_in_range(
                            (#[trigger] self.contention_lane@[i][j]).ticket_view(), n, ceiling) by {
                            if i != contended_bucket_index || j < contenders[i].len() {
                                assert(self.contention_lane@[i][j] == contenders[i][j]);
                            }
                        }
                        lemma_anchors_contend(contenders, contended_bucket_index as int, contended);
                        assert forall|b: int| 0 <= b < n implies #[trigger] self.tickets_at(b) == 1 by {
                            assert(prev.tickets_at(b) == 1);
                            lemma_count_moved(
                                anchors_of(ready_views(ready)),
                                anchors_of(contender_views(contenders.flatten())),
                                x,
                                b as usize,
                            );
                        }
                    }
                },
            }
        }
    }

    /// Assigns the next ticket whose whole window can be leased, if any: see
    /// `next_assignment_at`.
    pub fn next_assignment(&mut self) -> (r: Option<Assigned>)
        requires
            old(self).wf(),
        ensures
            final(self).wf(),
            final(self).parameters() == old(self).parameters(),
            final(self).counts() == old(self).counts(),
            final(self).waiting() == old(self).waiting(),
            final(self).empty_slots() == old(self).empty_slots(),
            final(self).requests_received() == old(self).requests_received(),
            final(self).requests_assigned() == old(self).requests_assigned(),
            final(self).ready().len() <= old(self).ready().len(),
            final(self).post_log() == old(self).post_log(),
            forall|i: int| 0 <= i < final(self).ready().len() ==> old(self).ready().contains(#[trigger] final(self).ready()[i]),
            exists|now: u64| contended_behind(old(self).contenders(), final(self).contenders(), old(self).ready(), old(self).buckets(), now),
            final(self).clock() >= old(self).clock(),
            contended_behind(old(self).contenders(), final(self).contenders(), old(self).ready(), old(self).buckets(), final(self).clock()),
            all_present(old(self).buckets(), 0, old(self).bucket_count()) ==> final(self).contenders() == old(self).contenders(),
            r is None ==> final(self).ready().len() == 0 && final(self).assigned() == old(self).assigned()
                && final(self).buckets() == old(self).buckets(),
            r matches Some(a) ==> {
                &&& final(self).assigned() == old(self).assigned() + 1
                &&& exists|k: int|
                    0 <= k < old(self).ready().len() && (#[trigger] old(self).ready()[k]).ticket_view() == a.ticket@
                        && forall|j: int| 0 <= j < final(self).ready().len() ==> ready_precedes(old(self).ready()[k], #[trigger] final(self).ready()[j])
                &&& a.lease@ == lease_of(old(self).buckets(), a.ticket@.anchor as int, a.ticket@.delta as int)
                &&& final(self).buckets() == leased(old(self).buckets(), a.ticket@.anchor as int, a.ticket@.delta as int)
                &&& can_allocate(a)
                &&& ticket_in_range(a.ticket@, old(self).bucket_count(), old(self).parameters().delta_ceiling as int)
                &&& a.ground_allocation_control_signals.maximum_matchings == RESIDENCY_LIMIT
                &&& a.ground_allocation_control_signals.requests_per_matching == old(self).parameters().requests_per_matching
                &&& a.ground_allocation_control_signals.window_eligible_request_counts@ == clipped_window(
                    old(self).counts(),
                    a.ticket@.anchor as int,
                    a.ticket@.delta as int,
                )
            },
    {
        let timestamp = self.tick();
        let ghost ticked = *self;
        let r = self.next_assignment_at(timestamp);
        proof {
            assert(ticked.contenders() == old(self).contenders());
            assert(contended_behind(old(self).contenders(), self.contenders(), old(self).ready(), old(self).buckets(), timestamp));
        }
        r
    }
}

/// The reach a window moves to after a session that reached `furthest`
/// buckets out, given the reach `target` it should have: one wider when it is
/// short of the target and the session drew from its edge, one narrower when
/// it is past the target and the session stayed inside, else unchanged.
pub open spec fn stepped_reach(delta: int, target: int, furthest: int) -> int {
    if delta < target && furthest == delta {
        delta + 1
    } else if delta > target && furthest < delta {
        delta - 1
    } else {
        delta
    }
}

/// The widest reach a target may ask for: the queue's ceiling, and no more
/// than a window's offsets go.
pub open spec fn reach_limit(delta_ceiling: int) -> int {
    if delta_ceiling < i32::MAX {
        delta_ceiling
    } else {
        i32::MAX as int
    }
}

/// The target a proposed reach stands for: the proposal, held to the limit.
pub open spec fn held_target(proposed: int, delta_ceiling: int) -> int {
    if proposed < reach_limit(delta_ceiling) {
        proposed
    } else {
        reach_limit(delta_ceiling)
    }
}

/// The resize rule as a law: a reach past its target, after a session that
/// stayed inside the window, narrows by exactly one; a reach short of its
/// target, after a session that drew from the window's edge, widens by
/// exactly one; any other session leaves it; and a step never passes the
/// target.
pub proof fn lemma_reach_steps_toward_target(delta: int, target: int, furthest: int)
    ensures
        delta > target && furthest < delta ==> stepped_reach(delta, target, furthest) == delta - 1,
        delta < target && furthest == delta ==> stepped_reach(delta, target, furthest) == delta + 1,
        furthest > delta || delta == target ==> stepped_reach(delta, target, furthest) == delta,
        delta < target ==> delta <= stepped_reach(delta, target, furthest) <= target,
        delta > target ==> target <= stepped_reach(delta, target, furthest) <= delta,
{
}

/// Moves a window's reach one step toward the proposed target, as
/// `stepped_reach` says, the target held to the queue's ceiling.
pub fn step_reach(delta: usize, proposed: usize, delta_ceiling: usize, furthest: usize) -> (r: usize)
    ensures
        r == stepped_reach(delta as int, held_target(proposed as int, delta_ceiling as int), furthest as int),
        // Past a target within the ceiling, after a session that stayed
        // inside the window: one narrower.
        proposed <= delta_ceiling && proposed <= i32::MAX && proposed < delta && furthest < delta ==> r == delta - 1,
        // Short of the target and of the ceiling, after a session that drew
        // from the window's edge: one wider.
        delta < proposed && delta < delta_ceiling && delta < i32::MAX && furthest == delta ==> r == delta + 1,
        // A session that reached beyond the window changes nothing.
        furthest > delta ==> r == delta,
        // At most one step, never past the ceiling when widening.
        delta <= r + 1 && r <= delta + 1,
        r > delta ==> r <= delta_ceiling && r <= i32::MAX && r <= proposed,
        r < delta ==> r >= proposed || r >= delta_ceiling || r >= i32::MAX,
{
    proof { lemma_reach_steps_toward_target(delta as int, held_target(proposed as int, delta_ceiling as int), furthest as int); }
    let limit = if delta_ceiling < i32::MAX as usize { delta_ceiling } else { i32::MAX as usize };
    let target = if proposed < limit { proposed } else { limit };
    if delta < target && furthest == delta {
        delta + 1
    } else if delta > target && furthest < delta {
        delta - 1
    } else {
        delta
    }
}

/// `completion_timestamp + backoff`, or `u64::MAX` where that overflows.
pub open spec fn deadline(completion_timestamp: int, backoff: int) -> int {
    if completion_timestamp + backoff <= u64::MAX {
        completion_timestamp + backoff
    } else {
        u64::MAX as int
    }
}

/// When a ticket that formed no matching may be tried again: its session's
/// completion, plus the backoff (saturating).
pub fn backoff_deadline(completion_timestamp: u64, backoff: u64) -> (r: u64)
    ensures
        r == deadline(completion_timestamp as int, backoff as int),
{
    completion_timestamp.saturating_add(backoff)
}

/// The tickets that readmitting `completed` takes out of contention: those
/// contending for a bucket of its window.
pub open spec fn flushed_by<P: SchedulingPolicy>(table: SchedulingTable<P>, completed: Completed) -> Seq<Contended> {
    let anchor = completed.ticket@.anchor as int;
    let delta = completed.ticket@.delta as int;
    let start = window_lo(anchor, delta);
    contenders_in(table.contenders(), start, start + visible_len(table.bucket_count(), anchor, delta))
}

impl<P: SchedulingPolicy> SchedulingTable<P> {
    /// What readmitting `completed` needs: it holds its lease, its anchor and
    /// reach are ones the table hands out and the ticket of that anchor is out
    /// on assignment, and what it drained lies in its window and is still
    /// counted there.
    pub open spec fn readmission_allowed(&self, completed: Completed) -> bool {
        let anchor = completed.ticket@.anchor as int;
        let delta = completed.ticket@.delta as int;
        let drained = completed.local_feedback.drained_counts@;
        &&& completed.lease is Some
        &&& self.assigned() > 0
        &&& ticket_in_range(completed.ticket@, self.bucket_count(), self.parameters().delta_ceiling as int)
        &&& completed.local_feedback.drained_counts.base() >= 0
        &&& forall|o: int| #[trigger] drained.covers(o) ==> window_holds(self.bucket_count(), anchor, delta, o)
            && drained.get(o)->0 <= self.counts()[anchor + o]
        &&& self.out_on_assignment()[anchor]
    }

    /// Whether `completed` can be readmitted.
    pub fn can_readmit(&self, completed: &Completed) -> (b: bool)
        requires
            self.wf(),
        ensures
            b == self.readmission_allowed(*completed),
    {
        let anchor = completed.ticket.anchor_bucket_index();
        let delta = completed.ticket.delta();
        let n = self.bookkeeping.bucket_request_counts.len();
        if completed.lease.is_none() || self.bookkeeping.assigned_ticket_count == 0 || anchor >= n
            || delta > self.queue_parameters.delta_ceiling() || delta > i32::MAX as usize {
            return false;
        }
        let drained = &completed.local_feedback.drained_counts;
        if drained.base_index() < 0 {
            return false;
        }
        let ghost view = drained@;
        let first = drained.first_offset();
        let mut k: i64 = 0;
        for count in it: drained.iter()
            invariant
                it.seq().unref() == view.items,
                k == it.index(),
                view == completed.local_feedback.drained_counts@,
                view.wf(),
                view.limit <= i32::MAX,
                view.items.len() > 0 ==> first == view.first,
                anchor < n,
                anchor == completed.ticket@.anchor,
                delta == completed.ticket@.delta,
                n == self.bucket_count(),
                n == self.bookkeeping.bucket_request_counts@.len(),
                n <= i32::MAX,
                delta <= i32::MAX,
                forall|o: int| view.first <= o < view.first + k ==> window_holds(n as int, anchor as int, delta as int, o)
                    && view.get(o)->0 <= self.bookkeeping.bucket_request_counts@[anchor + o],
        {
            let offset = first + k;
            let index = anchor as i64 + offset;
            let here = -(delta as i64) <= offset && offset <= delta as i64 && 0 <= index && index < n as i64
                && *count <= self.bookkeeping.bucket_request_counts[index as usize];
            proof {
                assert(*count == view.items[k as int]);
                assert(view.get(offset as int) == Some(view.items[k as int]));
                assert(view.covers(offset as int));
            }
            if !here {
                proof {
                    assert(!window_holds(n as int, anchor as int, delta as int, offset as int)
                        || view.get(offset as int)->0 > self.bookkeeping.bucket_request_counts@[anchor + offset]);
                }
                return false;
            }
            proof {
                assert forall|o: int| view.first <= o < view.first + k + 1 implies window_holds(
                    n as int, anchor as int, delta as int, o)
                    && view.get(o)->0 <= self.bookkeeping.bucket_request_counts@[anchor + o] by {
                    if o == offset {
                        assert(view.get(o)->0 == *count);
                    }
                }
            }
            k = k + 1;
        }
        proof {
            assert(k == view.items.len());
            assert forall|o: int| #[trigger] view.covers(o) implies window_holds(n as int, anchor as int, delta as int, o)
                && view.get(o)->0 <= self.bookkeeping.bucket_request_counts@[anchor + o] by {
                assert(view.first <= o < view.first + k);
            }
        }
        self.assigned_anchors[anchor]
    }
}


/// Tickets taken out of contention, in order, as ready tickets.
pub open spec fn as_ready(contenders: Seq<Contended>) -> Seq<ReadyPriority> {
    contenders.map_values(|c: Contended| ReadyPriority::Contended(c))
}

/// Takes the counts a session drained off the bucket counts, offset by offset
/// from `anchor`.
fn drain_counts(counts: &mut Vec<usize>, drained: &OffsetIndexedSlice<usize>, anchor: usize)
    requires
        drained.base() >= 0,
        anchor <= i32::MAX,
        forall|o: int| #[trigger] drained@.covers(o) ==> 0 <= anchor + o < old(counts)@.len()
            && drained@.get(o)->0 <= old(counts)@[anchor + o],
    ensures
        final(counts)@ == counts_after_drain(old(counts)@, drained@, anchor as int),
{
    let ghost view = drained@;
    let ghost counts0 = counts@;
    let first = drained.first_offset();
    let mut k: i64 = 0;
    for count in it: drained.iter()
        invariant
            it.seq().unref() == view.items,
            k == it.index(),
            view == drained@,
            view.wf(),
            view.limit <= i32::MAX,
            view.items.len() > 0 ==> first == view.first,
            -(i32::MAX as int) - 1 <= first <= i32::MAX,
            counts@.len() == counts0.len(),
            anchor <= i32::MAX,
            forall|o: int| #[trigger] view.covers(o) ==> 0 <= anchor + o < counts0.len() && view.get(o)->0 <= counts0[anchor + o],
            forall|i: int|
                0 <= i < counts0.len() ==> #[trigger] counts@[i] == (if view.covers(i - anchor) && i - anchor < view.first + k {
                    (counts0[i] - view.get(i - anchor)->0) as usize
                } else {
                    counts0[i]
                }),
    {
        let offset = first + k;
        proof {
            assert(*count == view.items[k as int]);
            assert(view.covers(offset as int));
            assert(view.get(offset as int) == Some(view.items[k as int]));
        }
        let index = (anchor as i64 + offset) as usize;
        proof {
            assert(index - anchor == offset);
            assert(counts@[index as int] == counts0[index as int]);
        }
        let current = counts[index];
        counts.set(index, current - *count);
        k = k + 1;
    }
    proof {
        assert(counts@ =~= counts_after_drain(counts0, view, anchor as int));
    }
}

/// Moves the tickets contending for a bucket of the window anchored at
/// `anchor` with reach `delta` to the ready queue, in order.
fn requeue_contenders(contention_lane: &mut Contention, ready_queue: &mut ReadyQueue, anchor: usize, delta: usize)
    requires
        anchor <= i32::MAX,
        delta <= i32::MAX,
    ensures
        ({
            let start = window_lo(anchor as int, delta as int);
            let end = start + visible_len(old(contention_lane)@.len() as int, anchor as int, delta as int);
            let flushed = contenders_in(old(contention_lane)@, start, end);
            &&& final(ready_queue)@ == old(ready_queue)@ + as_ready(flushed)
            &&& final(contention_lane)@.flatten().len() == old(contention_lane)@.flatten().len() - flushed.len()
            &&& final(contention_lane)@.len() == old(contention_lane)@.len()
            &&& forall|i: int|
                0 <= i < old(contention_lane)@.len() ==> #[trigger] final(contention_lane)@[i] == (if start <= i < end {
                    Seq::<Contended>::empty()
                } else {
                    old(contention_lane)@[i]
                })
        }),
{
    let flushed = contention_lane.flush_contenders(anchor, delta);
    let ghost ready0 = ready_queue@;
    let ghost all = flushed@;
    for contended in it: flushed
        invariant
            it.seq() == all,
            ready_queue@ == ready0 + as_ready(all.take(it.index() as int)),
    {
        let ghost i = it.index();
        ready_queue.push(ReadyPriority::Contended(contended));
        proof {
            assert(all[i] == contended);
            assert(as_ready(all.take(i + 1)) =~= as_ready(all.take(i)).push(ReadyPriority::Contended(contended)));
        }
    }
    proof {
        assert(all.take(all.len() as int) =~= all);
    }
}

/// Every ticket taken out of contention for a range of buckets is one the
/// The tickets taken out of contention for a range of buckets began
/// contending no later than every lane's tickets did.
proof fn lemma_contenders_in_started_by(lists: Seq<Seq<Contended>>, start: int, end: int, clock: u64)
    requires
        0 <= start,
        end <= lists.len(),
        forall|i: int, j: int|
            0 <= i < lists.len() && 0 <= j < lists[i].len() ==> (#[trigger] lists[i][j]).contention_start() <= clock,
    ensures
        forall|k: int|
            0 <= k < contenders_in(lists, start, end).len() ==> (#[trigger] contenders_in(lists, start, end)[k]).contention_start()
                <= clock,
{
    if start < end {
        let sub = lists.subrange(start, end);
        let p = |c: Contended| c.contention_start() <= clock;
        assert forall|i: int, j: int| 0 <= i < sub.len() && 0 <= j < sub[i].len() implies p(#[trigger] sub[i][j]) by {
            assert(sub[i] == lists[start + i]);
        }
        lemma_flatten_all(sub, p);
    }
}

/// table may hand out.
proof fn lemma_contenders_in_range(lists: Seq<Seq<Contended>>, start: int, end: int, n: int, ceiling: int)
    requires
        0 <= start,
        end <= lists.len(),
        forall|i: int, j: int|
            0 <= i < lists.len() && 0 <= j < lists[i].len() ==> ticket_in_range(
                (#[trigger] lists[i][j]).ticket_view(),
                n,
                ceiling,
            ),
    ensures
        forall|k: int|
            0 <= k < contenders_in(lists, start, end).len() ==> ticket_in_range(
                (#[trigger] contenders_in(lists, start, end)[k]).ticket_view(),
                n,
                ceiling,
            ),
{
    if start < end {
        let sub = lists.subrange(start, end);
        let p = |c: Contended| ticket_in_range(c.ticket_view(), n, ceiling);
        assert forall|i: int, j: int| 0 <= i < sub.len() && 0 <= j < sub[i].len() implies p(#[trigger] sub[i][j]) by {
            assert(sub[i] == lists[start + i]);
        }
        lemma_flatten_all(sub, p);
    }
}

/// Whether `after` is `before` with its reach stepped toward some target the
/// policy may propose, as `step_reach` does.
pub open spec fn resized_from(before: TicketView, after: TicketView, furthest: int, delta_ceiling: int) -> bool {
    &&& after.anchor == before.anchor
    &&& exists|proposed: usize| after.delta == stepped_reach(before.delta as int, held_target(proposed as int, delta_ceiling), furthest)
}

/// Whether `after`, the readmitted ticket of `completed` as `table` leaves it,
/// has its reach stepped toward a target that the table's policy may answer
/// when asked with the ticket (its oldest request refreshed, its reach not
/// yet moved), the table's bookkeeping and parameters, and the session's
/// summary.
pub open spec fn resized_by_policy<P: SchedulingPolicy>(table: SchedulingTable<P>, completed: Completed, after: TicketView) -> bool {
    exists|asked: Ticket, proposed: usize|
        asked@ == (TicketView { oldest: after.oldest, ..completed.ticket@ }) && call_ensures(
            P::target_delta,
            (&table.policy(), &asked, &table.bookkeeping(), &table.queue_parameters(), &completed.local_feedback),
            proposed,
        ) && after == (TicketView {
            delta: stepped_reach(
                completed.ticket@.delta as int,
                held_target(proposed as int, table.parameters().delta_ceiling as int),
                completed.local_feedback.furthest_bucket_distance as int,
            ) as usize,
            ..asked@
        })
}

/// Whether `readmission` is the session's completion plus a backoff that the
/// table's policy may answer when asked with the readmitted ticket `after`,
/// the table's bookkeeping and parameters, and the session's summary.
pub open spec fn backed_off_by_policy<P: SchedulingPolicy>(
    table: SchedulingTable<P>,
    completed: Completed,
    after: TicketView,
    readmission: u64,
) -> bool {
    exists|asked: Ticket, backoff: u64|
        asked@ == after && call_ensures(
            P::backoff_duration,
            (&table.policy(), &asked, &table.bookkeeping(), &table.queue_parameters(), &completed.local_feedback),
            backoff,
        ) && readmission == deadline(completed.local_feedback.completion_timestamp as int, backoff as int)
}

/// The submission time of `head`, the request at the head of a ticket's
/// anchor bucket, if there is one.
pub open spec fn head_time(head: Option<MatchmakingRequest>) -> Option<u64> {
    match head {
        Some(request) => Some(request.submission_timestamp),
        None => None,
    }
}

/// Where readmitting `completed` into `before` leaves its ticket in `after`,
/// given `head`, the request at the head of its anchor bucket when it came
/// back: behind the ready tickets that precede it (those ready before, then
/// the contenders its window released), its oldest request being `head`'s;
/// waiting from its completion on when it formed no matching; otherwise ready
/// when its anchor bucket still held a request, or empty when it held none.
pub open spec fn placed<P: SchedulingPolicy>(
    before: SchedulingTable<P>,
    after: SchedulingTable<P>,
    completed: Completed,
    head: Option<MatchmakingRequest>,
) -> bool {
    let t = completed.ticket@;
    let summary = completed.local_feedback;
    let furthest = summary.furthest_bucket_distance as int;
    let ceiling = before.parameters().delta_ceiling as int;
    let base = before.ready() + as_ready(flushed_by(before, completed));
    if summary.successful_matchings == 0 {
        &&& after.ready() == base
        &&& after.empty_slots() == before.empty_slots()
        &&& after.waiting().len() == before.waiting().len() + 1
        &&& after.waiting().drop_last() == before.waiting()
        &&& after.waiting().last().ticket_view().oldest == head_time(head)
        &&& resized_from(t, after.waiting().last().ticket_view(), furthest, ceiling)
        &&& resized_by_policy(after, completed, after.waiting().last().ticket_view())
        &&& backed_off_by_policy(
            after,
            completed,
            after.waiting().last().ticket_view(),
            after.waiting().last().readmission(),
        )
    } else if head is Some {
        &&& after.ready().len() == base.len() + 1
        &&& after.ready().drop_last() == base
        &&& after.ready().last() is Normal
        &&& after.ready().last().ticket_view().oldest == head_time(head)
        &&& resized_from(t, after.ready().last().ticket_view(), furthest, ceiling)
        &&& resized_by_policy(after, completed, after.ready().last().ticket_view())
        &&& after.waiting() == before.waiting()
        &&& after.empty_slots() == before.empty_slots()
    } else {
        &&& after.ready() == base
        &&& after.waiting() == before.waiting()
        &&& after.empty_slots() == before.empty_slots().update(t.anchor as int, after.empty_slots()[t.anchor as int])
        &&& after.empty_slots()[t.anchor as int] matches Some(v) && resized_from(t, v, furthest, ceiling) && v.oldest is None
            && resized_by_policy(after, completed, v)
    }
}

impl<P: SchedulingPolicy> SchedulingTable<P> {
    /// Readmits a ticket back into the scheduler after its session, `head`
    /// being the request at the head of its anchor bucket: the counts it
    /// drained come off its window, its lease is released, the tickets
    /// contending for its window become ready, its reach is resized toward the
    /// policy's target, its oldest request becomes `head`'s, and it waits for
    /// its backoff (when it formed no matching), becomes ready (when there is
    /// a head request) or goes empty.
    pub fn readmit_completed_with_head(&mut self, completed: Completed, head: Option<MatchmakingRequest>)
        requires
            old(self).wf(),
            old(self).readmission_allowed(completed),
        ensures
            final(self).wf(),
            final(self).parameters() == old(self).parameters(),
            final(self).assigned() == old(self).assigned() - 1,
            final(self).requests_received() == old(self).requests_received(),
            final(self).requests_assigned() == capped(
                old(self).requests_assigned() + capped(
                    completed.local_feedback.successful_matchings * old(self).parameters().requests_per_matching,
                ),
            ),
            final(self).counts() == counts_after_drain(
                old(self).counts(),
                completed.local_feedback.drained_counts@,
                completed.ticket@.anchor as int,
            ),
            final(self).buckets() == released(
                old(self).buckets(),
                completed.lease->0@,
                completed.ticket@.anchor as int,
                completed.ticket@.delta as int,
            ),
            ({
                let start = window_lo(completed.ticket@.anchor as int, completed.ticket@.delta as int);
                let end = start + visible_len(old(self).bucket_count(), completed.ticket@.anchor as int, completed.ticket@.delta as int);
                forall|i: int|
                    0 <= i < old(self).bucket_count() ==> #[trigger] final(self).contenders()[i] == (if start <= i < end {
                        Seq::<Contended>::empty()
                    } else {
                        old(self).contenders()[i]
                    })
            }),
            placed(*old(self), *final(self), completed, head),
    {
        let ghost before = *self;
        let ghost c0 = completed;
        let ghost t0 = completed.ticket@;
        let ghost n = self.bucket_count();
        let ghost ceiling_int = self.queue_parameters@.delta_ceiling as int;
        let mut completed = completed;
        let anchor = completed.ticket.anchor_bucket_index();
        let delta = completed.ticket.delta();
        let rpm = self.queue_parameters.requests_per_matching();

        // What the session drained comes off the counts.
        self.bookkeeping.assigned_ticket_count = self.bookkeeping.assigned_ticket_count - 1;
        self.assigned_anchors.set(anchor, false);
        drain_counts(&mut self.bookkeeping.bucket_request_counts, &completed.local_feedback.drained_counts, anchor);
        let assigned_requests = match completed.local_feedback.successful_matchings.checked_mul(rpm) {
            Some(product) => product,
            None => usize::MAX,
        };
        self.total_requests_assigned = self.total_requests_assigned.saturating_add(assigned_requests);
        self.policy.record_new_assignment_batch(assigned_requests);

        // The anchor bucket's oldest request, then the lease goes back.
        let lease = completed.lease.take().unwrap();
        let oldest = match head {
            Some(request) => Some(request.submission_timestamp),
            None => None,
        };
        completed.ticket.set_oldest_request_timestamp(oldest);
        self.request_matrix.release(lease.into_buckets(), anchor, delta);

        // Contenders for the window become ready.
        requeue_contenders(&mut self.contention_lane, &mut self.ready_queue, anchor, delta);
        let ghost flushed = flushed_by(before, c0);
        proof {
            let start = window_lo(anchor as int, delta as int);
            let end = start + visible_len(n, anchor as int, delta as int);
            let r0 = before.ready_queue@;
            assert(flushed == contenders_in(before.contention_lane@, start, end));
            lemma_contenders_in_range(before.contention_lane@, start, end, n, ceiling_int);
            lemma_contenders_in_started_by(before.contention_lane@, start, end, self.clock);
            assert forall|i: int| 0 <= i < self.ready_queue@.len() implies ((#[trigger] self.ready_queue@[i]) matches ReadyPriority::Contended(c)
                ==> c.contention_start() <= self.clock) by {
                if i < r0.len() {
                    assert(self.ready_queue@[i] == r0[i]);
                } else {
                    assert(self.ready_queue@[i] == ReadyPriority::Contended(flushed[i - r0.len()]));
                }
            }
            assert forall|i: int, j: int| 0 <= i < n && 0 <= j < self.contention_lane@[i].len() implies (#[trigger] self.contention_lane@[i][j]).contention_start()
                <= self.clock by {
                assert(self.contention_lane@[i] == before.contention_lane@[i]);
            }
            assert forall|i: int| 0 <= i < self.ready_queue@.len() implies ticket_in_range(
                (#[trigger] self.ready_queue@[i]).ticket_view(), n, ceiling_int) by {
                if i < r0.len() {
                    assert(self.ready_queue@[i] == r0[i]);
                } else {
                    assert(self.ready_queue@[i] == ReadyPriority::Contended(flushed[i - r0.len()]));
                }
            }
            assert forall|i: int, j: int| 0 <= i < n && 0 <= j < self.contention_lane@[i].len() implies ticket_in_range(
                (#[trigger] self.contention_lane@[i][j]).ticket_view(), n, ceiling_int) by {
                assert(self.contention_lane@[i] == before.contention_lane@[i]);
            }
            let counts0 = before.bookkeeping.bucket_request_counts@;
            let rpm_int = self.queue_parameters@.requests_per_matching as int;
            assert forall|i: int| 0 <= i < n implies #[trigger] self.bookkeeping.bucket_request_counts@[i] + rpm_int
                <= usize::MAX by {
                assert(counts0[i] + rpm_int <= usize::MAX);
                let o = i - anchor;
                if c0.local_feedback.drained_counts@.covers(o) {
                    assert(c0.local_feedback.drained_counts@.get(o)->0 <= counts0[anchor + o]);
                }
            }
            assert(self.ready_queue@.len() == r0.len() + flushed.len());
            // Every bucket but the anchor keeps its one ticket; the anchor's is
            // in hand.
            lemma_anchors_flush(before.contention_lane@, self.contention_lane@, start, end);
            assert(ready_views(self.ready_queue@) =~= ready_views(r0) + contender_views(flushed));
            lemma_anchors_concat(ready_views(r0), contender_views(flushed));
            assert(before.wf());
            assert forall|b: int| 0 <= b < n implies #[trigger] self.tickets_at(b) == (if b == anchor {
                0int
            } else {
                1int
            }) by {
                assert(before.tickets_at(b) == 1);
                lemma_count_add(
                    anchors_of(contender_views(self.contention_lane@.flatten())),
                    anchors_of(contender_views(flushed)),
                    b as usize,
                );
                lemma_count_add(anchors_of(ready_views(r0)), anchors_of(contender_views(flushed)), b as usize);
            }
            assert(self.tickets_at(anchor as int) == 0);
        }

        // The reach moves one bucket toward the target, at most.
        let ghost asked_reach = completed.ticket;
        let proposed = self.policy.target_delta(
            &completed.ticket,
            &self.bookkeeping,
            &self.queue_parameters,
            &completed.local_feedback,
        );
        let ceiling = self.queue_parameters.delta_ceiling();
        let furthest = completed.local_feedback.furthest_bucket_distance;
        let new_delta = step_reach(delta, proposed, ceiling, furthest);
        completed.ticket.set_delta(new_delta);
        let ghost t1 = completed.ticket@;
        let ghost asked_backoff = completed.ticket;
        let ghost ready1 = self.ready_queue@;
        // Back off, go ready, or go empty.
        if completed.local_feedback.successful_matchings == 0 {
            let backoff = self.policy.backoff_duration(
                &completed.ticket,
                &self.bookkeeping,
                &self.queue_parameters,
                &completed.local_feedback,
            );
            let until = backoff_deadline(completed.local_feedback.completion_timestamp, backoff);
            let ghost w0 = self.waiting_lane@;
            let ghost mid = *self;
            self.waiting_lane.push(completed.wait(until));
            proof {
                assert(self.waiting_lane@.drop_last() =~= w0);
                assert(self.waiting_lane@.last().readmission() == deadline(c0.local_feedback.completion_timestamp as int, backoff as int));
                assert(waiting_views(self.waiting_lane@) =~= waiting_views(w0).push(t1));
                lemma_anchors_push(waiting_views(w0), t1);
                assert forall|b: int| 0 <= b < n implies #[trigger] self.tickets_at(b) == 1 by {
                    assert(mid.tickets_at(b) == (if b == anchor { 0int } else { 1int }));
                    lemma_count_insert(anchors_of(waiting_views(w0)), anchor, b as usize);
                }
            }
        } else if oldest.is_some() {
            let ghost r1 = self.ready_queue@;
            let ghost mid = *self;
            self.ready_queue.push(ReadyPriority::Normal(completed.ready()));
            proof {
                assert(self.ready_queue@.drop_last() =~= r1);
                assert(ready_views(self.ready_queue@) =~= ready_views(r1).push(t1));
                lemma_anchors_push(ready_views(r1), t1);
                assert forall|b: int| 0 <= b < n implies #[trigger] self.tickets_at(b) == 1 by {
                    assert(mid.tickets_at(b) == (if b == anchor { 0int } else { 1int }));
                    lemma_count_insert(anchors_of(ready_views(r1)), anchor, b as usize);
                }
            }
        } else {
            let ghost mid = *self;
            self.empty_hold.place(completed.empty());
            proof {
                assert forall|b: int| 0 <= b < n implies #[trigger] self.tickets_at(b) == 1 by {
                    assert(mid.tickets_at(b) == (if b == anchor { 0int } else { 1int }));
                }
                assert forall|i: int| 0 <= i < n implies ((#[trigger] self.empty_hold.slots()[i]) matches Some(t) ==> t.anchor == i) by {
                    if i != anchor {
                        assert(self.empty_hold.slots()[i] == mid.empty_hold.slots()[i]);
                    }
                }
            }
        }
        proof {
            assert(resized_from(t0, t1, furthest as int, ceiling_int)) by {
                assert(t1.delta == stepped_reach(t0.delta as int, held_target(proposed as int, ceiling_int), furthest as int));
            }
            assert(before.ready() + as_ready(flushed) == ready1);
        }
    }

    /// Readmits a ticket back into the scheduler after its session: the head
    /// of its anchor bucket is read off its lease, then the ticket is
    /// readmitted as `readmit_completed_with_head` says. Which request heads
    /// the bucket depends on what the producer side has posted meanwhile.
    pub fn readmit_completed(&mut self, completed: Completed)
        requires
            old(self).wf(),
            old(self).readmission_allowed(completed),
        ensures
            final(self).wf(),
            final(self).parameters() == old(self).parameters(),
            final(self).assigned() == old(self).assigned() - 1,
            final(self).requests_received() == old(self).requests_received(),
            final(self).requests_assigned() == capped(
                old(self).requests_assigned() + capped(
                    completed.local_feedback.successful_matchings * old(self).parameters().requests_per_matching,
                ),
            ),
            final(self).counts() == counts_after_drain(
                old(self).counts(),
                completed.local_feedback.drained_counts@,
                completed.ticket@.anchor as int,
            ),
            final(self).buckets() == released(
                old(self).buckets(),
                completed.lease->0@,
                completed.ticket@.anchor as int,
                completed.ticket@.delta as int,
            ),
            ({
                let start = window_lo(completed.ticket@.anchor as int, completed.ticket@.delta as int);
                let end = start + visible_len(old(self).bucket_count(), completed.ticket@.anchor as int, completed.ticket@.delta as int);
                forall|i: int|
                    0 <= i < old(self).bucket_count() ==> #[trigger] final(self).contenders()[i] == (if start <= i < end {
                        Seq::<Contended>::empty()
                    } else {
                        old(self).contenders()[i]
                    })
            }),
            exists|head: Option<MatchmakingRequest>| placed(*old(self), *final(self), completed, head),
    {
        let head = match &completed.lease {
            Some(lease) => match lease.try_peek(0) {
                Some(request) => Some(*request),
                None => None,
            },
            None => None,
        };
        self.readmit_completed_with_head(completed, head);
    }

}


impl<P: SchedulingPolicy> SchedulingTable<P> {
    /// A snapshot of the table's counters and lanes.
    pub fn diagnostics(&self) -> (d: SchedulerDiagnostics)
        requires
            self.wf(),
        ensures
            d.total_request_count == self.requests_received(),
            d.total_filled_request_count == self.requests_assigned(),
            d.per_bucket_request_count@ == self.counts(),
            d.ready_count == self.ready().len(),
            d.assigned_count == self.assigned(),
            d.waiting_count == self.waiting().len(),
            d.contended_count == self.contenders().flatten().len(),
            d.empty_count == count_some(self.empty_slots()),
            d.contention_lane_view@.len() == self.bucket_count(),
            forall|i: int|
                0 <= i < self.bucket_count() ==> (#[trigger] d.contention_lane_view@[i])@ == self.contenders()[i].map_values(
                    |c: Contended| c.ticket_view().anchor,
                ),
    {
        let mut per_bucket_request_count: Vec<usize> = Vec::with_capacity(self.bookkeeping.bucket_request_counts.len());
        let mut i: usize = 0;
        while i < self.bookkeeping.bucket_request_counts.len()
            invariant
                i <= self.bookkeeping.bucket_request_counts@.len(),
                per_bucket_request_count@ == self.bookkeeping.bucket_request_counts@.subrange(0, i as int),
            decreases self.bookkeeping.bucket_request_counts@.len() - i,
        {
            per_bucket_request_count.push(self.bookkeeping.bucket_request_counts[i]);
            i = i + 1;
        }
        proof {
            assert(self.bookkeeping.bucket_request_counts@.subrange(0, i as int) =~= self.bookkeeping.bucket_request_counts@);
            lemma_count_some_bound(self.empty_hold.slots());
        }
        SchedulerDiagnostics {
            total_request_count: self.total_requests_received,
            total_filled_request_count: self.total_requests_assigned,
            per_bucket_request_count,
            ready_count: self.ready_queue.len(),
            assigned_count: self.bookkeeping.assigned_ticket_count,
            waiting_count: self.waiting_lane.len(),
            contended_count: self.contention_lane.count(),
            empty_count: self.empty_hold.count(),
            contention_lane_view: self.contention_lane.scan(),
        }
    }
}

} // verus!