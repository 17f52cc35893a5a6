//! Ground allocation algorithm.

use vstd::prelude::*;

use crate::matchmaking::scheduling::states::{Assigned, Completed};
use crate::matchmaking::utils::{lemma_seq_sum_update, lemma_seq_sum_zeros, now, seq_sum, OffsetIndexedSlice};
use crate::generator::generator::MatchmakingRequest;
use crate::validator::validator::MatchmakingAssignment;

verus! {

/// Ground allocation control signals, as determined by the scheduler.
pub struct GroundAllocationControlSignals {
    pub maximum_matchings: usize,
    pub requests_per_matching: usize,
    pub window_eligible_request_counts: OffsetIndexedSlice<usize>,
}

impl GroundAllocationControlSignals {
    pub fn get_eligible_request_count(&self, offset: i32) -> (r: Option<usize>)
        ensures
            r == self.window_eligible_request_counts@.get(offset as int),
    {
        match self.window_eligible_request_counts.get_offset(offset) {
            Some(count) => Some(*count),
            None => None,
        }
    }
}

/// Ground allocation session summary statistics.
pub struct GroundAllocationSessionSummary {
    pub successful_matchings: usize,
    pub furthest_bucket_distance: usize,
    pub completion_timestamp: u64,
    pub drained_counts: OffsetIndexedSlice<usize>,
}

/// Number of full matchings drawn from the anchor bucket alone.
pub open spec fn anchor_local_allocations(signals: GroundAllocationControlSignals) -> int {
    let eligible = signals.window_eligible_request_counts@.get(0)->0;
    let possible = eligible as int / signals.requests_per_matching as int;
    if signals.maximum_matchings <= possible {
        signals.maximum_matchings as int
    } else {
        possible
    }
}

/// The eligible counts left once the anchor-local matchings are drawn.
pub open spec fn counts_after_anchor_local(signals: GroundAllocationControlSignals) -> Seq<usize> {
    let counts = signals.window_eligible_request_counts@;
    counts.items.update(
        -counts.first,
        (counts.get(0)->0 - anchor_local_allocations(signals) * signals.requests_per_matching) as usize,
    )
}

/// Whether a session goes on to form one matching across the whole window:
/// there is room for one more matching, and the window holds enough eligible
/// requests for it.
pub open spec fn widens(signals: GroundAllocationControlSignals) -> bool {
    &&& anchor_local_allocations(signals) < signals.maximum_matchings
    &&& seq_sum(counts_after_anchor_local(signals)) >= signals.requests_per_matching
}

/// Where the widening walk stands after the pops `log`: its direction (one
/// or minus one), how far out it has reached, whether the last pop at this
/// distance found nothing, and how many requests it has drawn. It starts at
/// the anchor heading outwards; a request found turns it to the other edge,
/// a first miss turns it too, and a second miss at the same distance moves it
/// one bucket further out, heading up again.
pub open spec fn walk_state(log: Seq<(int, Option<MatchmakingRequest>)>) -> (int, int, bool, int)
    decreases log.len(),
{
    if log.len() == 0 {
        (1, 0, false, 0)
    } else {
        let s = walk_state(log.drop_last());
        if log.last().1 is Some {
            (-s.0, s.1, false, s.3 + 1)
        } else if !s.2 {
            (-s.0, s.1, true, s.3)
        } else {
            (1, s.1 + 1, false, s.3)
        }
    }
}

/// The offset the walk pops next from the state `s`.
pub open spec fn walk_offset(s: (int, int, bool, int)) -> int {
    if s.0 == 1 {
        s.1
    } else {
        -s.1
    }
}

/// Whether the walk goes on from the state `s`: the matching is short and the
/// walk is still within the ticket's reach.
pub open spec fn walk_goes_on(s: (int, int, bool, int), rpm: int, delta: int) -> bool {
    s.3 < rpm && s.1 <= delta
}

/// Whether `log` is exactly the widening walk: each pop made while the walk
/// goes on, at the offset it has reached, and the walk over after the last.
pub open spec fn walked(log: Seq<(int, Option<MatchmakingRequest>)>, rpm: int, delta: int) -> bool {
    &&& forall|k: int|
        0 <= k < log.len() ==> walk_goes_on(#[trigger] walk_state(log.take(k)), rpm, delta) && log[k].0
            == walk_offset(walk_state(log.take(k)))
    &&& !walk_goes_on(walk_state(log), rpm, delta)
}

/// The requests that the pops `log` drew, in order.
pub open spec fn drawn(log: Seq<(int, Option<MatchmakingRequest>)>) -> Seq<MatchmakingRequest>
    decreases log.len(),
{
    if log.len() == 0 {
        Seq::empty()
    } else {
        match log.last().1 {
            Some(request) => drawn(log.drop_last()).push(request),
            None => drawn(log.drop_last()),
        }
    }
}

/// How many requests the pops `log` drew at offset `o`.
pub open spec fn drawn_at(log: Seq<(int, Option<MatchmakingRequest>)>, o: int) -> int
    decreases log.len(),
{
    if log.len() == 0 {
        0
    } else {
        drawn_at(log.drop_last(), o) + (if log.last().0 == o && log.last().1 is Some {
            1int
        } else {
            0int
        })
    }
}

/// The pops that a session made through the lease of `job`, given the pops
/// its lease shows afterwards.
pub open spec fn session_pops(job: Assigned, after: Seq<(int, Option<MatchmakingRequest>)>) -> Seq<(int, Option<MatchmakingRequest>)> {
    after.subrange(job.lease.pops().len() as int, after.len() as int)
}

/// What a session needs of the ticket it runs on.
pub open spec fn can_allocate(assigned: Assigned) -> bool {
    let signals = assigned.ground_allocation_control_signals;
    let counts = signals.window_eligible_request_counts@;
    &&& signals.requests_per_matching > 0
    &&& signals.window_eligible_request_counts.base() >= 0
    &&& counts.get(0) is Some
    &&& counts.get(0)->0 + signals.requests_per_matching <= usize::MAX
    &&& forall|o: int| #[trigger] assigned.lease@.covers(o) ==> counts.covers(o)
    &&& assigned.ticket@.delta <= i32::MAX
}

/// Ground allocator: corresponds to a single ground allocation session.
pub struct GroundAllocator {
    ticket: Assigned,
}

impl GroundAllocator {
    pub closed spec fn job(&self) -> Assigned {
        self.ticket
    }

    pub fn new(ticket: Assigned) -> (allocator: GroundAllocator)
        ensures
            allocator.job() == ticket,
    {
        GroundAllocator { ticket }
    }

    /// Runs the ground allocation algorithm: first as many full matchings as
    /// the anchor bucket's eligible requests allow (up to the maximum), each
    /// drawn by popping the anchor bucket once per seat, then, if room and
    /// eligible requests remain, one matching drawn from the whole window by
    /// the widening walk (`walk_state`), alternating between its two edges
    /// outwards from the anchor.
    pub fn run_allocation(self) -> (r: (Vec<MatchmakingAssignment>, Completed))
        requires
            can_allocate(self.job()),
        ensures
            ({
                let job = self.job();
                let signals = job.ground_allocation_control_signals;
                let counts = signals.window_eligible_request_counts@;
                let rpm = signals.requests_per_matching as int;
                let delta = job.ticket@.delta as int;
                let local = anchor_local_allocations(signals);
                let summary = r.1.local_feedback;
                let pops = session_pops(job, r.1.lease->0.pops());
                let walk = pops.subrange(local * rpm, pops.len() as int);
                &&& r.1.ticket@ == job.ticket@
                &&& r.1.lease matches Some(lease) && lease@.limit == job.lease@.limit
                    && lease@.first == job.lease@.first && lease@.items.len() == job.lease@.items.len()
                    && lease.pops().len() >= job.lease.pops().len() + local * rpm
                    && lease.pops().subrange(0, job.lease.pops().len() as int) == job.lease.pops()
                &&& summary.successful_matchings == r.0@.len()
                &&& summary.successful_matchings == local + (if widens(signals) { 1int } else { 0int })
                &&& forall|k: int| 0 <= k < local * rpm ==> (#[trigger] pops[k]).0 == 0
                &&& forall|i: int|
                    0 <= i < local ==> (#[trigger] r.0@[i]).grouped_requests@ == drawn(
                        pops.subrange(i * rpm, i * rpm + rpm),
                    )
                &&& forall|i: int| 0 <= i < r.0@.len() ==> (#[trigger] r.0@[i]).grouped_requests@.len() <= rpm
                &&& !widens(signals) ==> pops.len() == local * rpm && summary.furthest_bucket_distance == 0
                &&& widens(signals) ==> walked(walk, rpm, delta) && r.0@.last().grouped_requests@ == drawn(walk)
                    && summary.furthest_bucket_distance == walk_state(walk).1
                &&& widens(signals) && r.0@.last().grouped_requests@.len() == rpm ==> summary.furthest_bucket_distance
                    <= delta
                &&& summary.furthest_bucket_distance <= delta + 1
                &&& summary.drained_counts@.limit == counts.limit
                &&& summary.drained_counts@.first == counts.first
                &&& summary.drained_counts@.items.len() == counts.items.len()
                &&& summary.drained_counts.base() >= 0
                &&& forall|o: int|
                    #[trigger] summary.drained_counts@.covers(o) ==> summary.drained_counts@.get(o)->0 == (if o == 0 {
                        local * rpm
                    } else {
                        0int
                    }) + (if widens(signals) {
                        drawn_at(walk, o)
                    } else {
                        0int
                    })
                &&& seq_sum(summary.drained_counts@.items) == local * rpm + (if widens(signals) {
                    r.0@.last().grouped_requests@.len() as int
                } else {
                    0int
                })
            }),
    {
        let ghost job = self.ticket;
        let GroundAllocator { ticket: assigned } = self;
        let Assigned { ticket, lease, ground_allocation_control_signals } = assigned;
        let mut lease = lease;
        let mut signals = ground_allocation_control_signals;
        let ghost counts = signals.window_eligible_request_counts@;
        let rpm = signals.requests_per_matching;
        let maximum = signals.maximum_matchings;
        let delta = ticket.delta();

        let mut drained_counts = signals.window_eligible_request_counts.map(zero_count);
        proof { lemma_seq_sum_zeros(drained_counts@.items); }

        // Allocate for the anchor bucket first: as many complete matchings as
        // its eligible requests allow.
        let anchor_eligible = signals.get_eligible_request_count(0).unwrap();
        let possible = anchor_eligible / rpm;
        let anchor_local_allocations = if maximum <= possible { maximum } else { possible };
        proof {
            assert(anchor_local_allocations * rpm <= anchor_eligible) by (nonlinear_arith)
                requires
                    anchor_local_allocations <= anchor_eligible / rpm,
                    rpm > 0,
            ;
        }

        let ghost p0 = job.lease.pops();
        let mut matchings: Vec<MatchmakingAssignment> = Vec::new();
        let mut m: usize = 0;
        let ghost mut base: int = 0;
        while m < anchor_local_allocations
            invariant
                m <= anchor_local_allocations,
                rpm > 0,
                base == m * rpm,
                matchings@.len() == m,
                forall|i: int| 0 <= i < m ==> (#[trigger] matchings@[i]).grouped_requests@.len() <= rpm,
                lease@.limit == job.lease@.limit,
                lease@.first == job.lease@.first,
                lease@.items.len() == job.lease@.items.len(),
                p0 == job.lease.pops(),
                lease.pops().len() == p0.len() + base,
                lease.pops().subrange(0, p0.len() as int) == p0,
                forall|k: int| 0 <= k < base ==> (#[trigger] session_pops(job, lease.pops())[k]).0 == 0,
                forall|i: int|
                    0 <= i < m ==> (#[trigger] matchings@[i]).grouped_requests@ == drawn(
                        session_pops(job, lease.pops()).subrange(i * rpm, i * rpm + rpm),
                    ),
            decreases anchor_local_allocations - m,
        {
            let mut matching: Vec<MatchmakingRequest> = Vec::with_capacity(rpm);
            let mut q: usize = 0;
            while q < rpm
                invariant
                    q <= rpm,
                    rpm > 0,
                    base == m * rpm,
                    m < anchor_local_allocations,
                    matching@.len() <= q,
                    matchings@.len() == m,
                    lease@.limit == job.lease@.limit,
                    lease@.first == job.lease@.first,
                    lease@.items.len() == job.lease@.items.len(),
                    p0 == job.lease.pops(),
                    lease.pops().len() == p0.len() + base + q,
                    lease.pops().subrange(0, p0.len() as int) == p0,
                    forall|k: int| 0 <= k < base + q ==> (#[trigger] session_pops(job, lease.pops())[k]).0 == 0,
                    matching@ == drawn(session_pops(job, lease.pops()).subrange(base, base + q)),
                    forall|i: int|
                        0 <= i < m ==> (#[trigger] matchings@[i]).grouped_requests@ == drawn(
                            session_pops(job, lease.pops()).subrange(i * rpm, i * rpm + rpm),
                        ),
                decreases rpm - q,
            {
                let ghost s0 = session_pops(job, lease.pops());
                let ghost l0 = lease.pops();
                let popped = lease.try_pop(0);
                let ghost e = (0int, popped);
                proof {
                    assert(lease.pops().subrange(0, p0.len() as int) =~= l0.subrange(0, p0.len() as int));
                    assert(session_pops(job, lease.pops()) =~= s0.push(e));
                    lemma_pops_push(s0.subrange(base, base + q), e);
                    assert(s0.push(e).subrange(base, base + q + 1) =~= s0.subrange(base, base + q).push(e));
                    assert forall|i: int| 0 <= i < m implies #[trigger] s0.push(e).subrange(i * rpm, i * rpm + rpm)
                        =~= s0.subrange(i * rpm, i * rpm + rpm) by {
                        assert(i * rpm + rpm <= m * rpm) by (nonlinear_arith)
                            requires
                                0 <= i < m,
                                rpm >= 0,
                        ;
                    }
                }
                if let Some(request) = popped {
                    matching.push(request);
                }
                q = q + 1;
            }
            matchings.push(MatchmakingAssignment { grouped_requests: matching });
            proof {
                assert((m + 1) * rpm == m * rpm + rpm) by (nonlinear_arith);
                base = base + rpm;
            }
            m = m + 1;
        }
        let ghost anchor_pops = session_pops(job, lease.pops());
        proof {
            assert(anchor_pops.len() == anchor_local_allocations * rpm);
        }

        let mut successful_matchings = anchor_local_allocations;
        let mut furthest_bucket_distance: usize = 0;

        // Update bookkeeping: the anchor bucket's drained and remaining counts.
        let anchor_drained = anchor_local_allocations * rpm;
        let ghost drained_before = drained_counts@;
        match drained_counts.get_offset_mut(0) {
            Some(count) => {
                *count = *count + anchor_drained;
            },
            None => {},
        }
        proof {
            lemma_seq_sum_update(drained_before.items, -drained_before.first, anchor_drained as usize);
            assert forall|o: int| #[trigger] drained_counts@.covers(o) implies drained_counts@.get(o)->0 == (if o == 0 {
                anchor_drained as int
            } else {
                0int
            }) by {
                assert(drained_before.items[o - drained_before.first] == 0);
            }
        }
        let ghost eligible_before = signals.window_eligible_request_counts@;
        match signals.window_eligible_request_counts.get_offset_mut(0) {
            Some(count) => {
                *count = *count - anchor_drained;
            },
            None => {},
        }
        assert(signals.window_eligible_request_counts@.items =~= counts_after_anchor_local(job.ground_allocation_control_signals));

        // Allocate using the full window, starting from the anchor, if there
        // is room and there are enough requests for precisely one more matching.
        let ghost mut walk: Seq<(int, Option<MatchmakingRequest>)> = Seq::empty();
        let total = saturating_total(&signals.window_eligible_request_counts);
        if successful_matchings < maximum && total >= rpm {
            let mut direction: i64 = 1;
            let mut current_absolute_offset: usize = 0;
            let mut matching: Vec<MatchmakingRequest> = Vec::with_capacity(rpm);
            let mut failed_at_current_offset = false;
            proof {
                assert(walk.len() == 0);
            }
            while matching.len() < rpm && current_absolute_offset <= delta
                invariant
                    rpm > 0,
                    delta <= i32::MAX,
                    current_absolute_offset <= delta + 1,
                    direction == 1 || direction == -1,
                    matching@.len() <= rpm,
                    matching@.len() == rpm ==> current_absolute_offset <= delta,
                    lease@.limit == job.lease@.limit,
                    lease@.first == job.lease@.first,
                    lease@.items.len() == job.lease@.items.len(),
                    p0 == job.lease.pops(),
                    lease.pops().subrange(0, p0.len() as int) == p0,
                    lease.pops().len() >= p0.len(),
                    session_pops(job, lease.pops()) == anchor_pops + walk,
                    walk_state(walk) == (direction as int, current_absolute_offset as int, failed_at_current_offset, matching@.len() as int),
                    matching@ == drawn(walk),
                    forall|k: int|
                        0 <= k < walk.len() ==> walk_goes_on(#[trigger] walk_state(walk.take(k)), rpm as int, delta as int)
                            && walk[k].0 == walk_offset(walk_state(walk.take(k))),
                    forall|o: int| #[trigger] job.lease@.covers(o) ==> counts.covers(o),
                    drained_counts@.limit == counts.limit,
                    drained_counts@.first == counts.first,
                    drained_counts@.items.len() == counts.items.len(),
                    drained_counts.base() >= 0,
                    counts.get(0) is Some,
                    counts.get(0)->0 + rpm <= usize::MAX,
                    anchor_drained <= counts.get(0)->0,
                    forall|o: int|
                        #[trigger] drained_counts@.covers(o) ==> drained_counts@.get(o)->0 == (if o == 0 {
                            anchor_drained as int
                        } else {
                            0int
                        }) + drawn_at(walk, o),
                    forall|o: int| drawn_at(walk, o) <= matching@.len(),
                    seq_sum(drained_counts@.items) == anchor_drained + matching@.len(),
                decreases rpm - matching@.len(), (delta + 1 - current_absolute_offset) * 2 + (if failed_at_current_offset { 0int } else { 1int }),
            {
                let offset: i32 = if direction == 1 {
                    current_absolute_offset as i32
                } else {
                    -(current_absolute_offset as i32)
                };
                let ghost lease_before = lease@;
                let ghost l0 = lease.pops();
                let ghost w0 = walk;
                let popped = lease.try_pop(offset);
                let ghost e = (offset as int, popped);
                proof {
                    assert(lease.pops().subrange(0, p0.len() as int) =~= l0.subrange(0, p0.len() as int));
                    walk = walk.push(e);
                    assert(lease.pops() == l0.push(e));
                    assert(session_pops(job, lease.pops()) =~= session_pops(job, l0).push(e));
                    assert(session_pops(job, l0) == anchor_pops + w0);
                    assert((anchor_pops + w0).push(e) =~= anchor_pops + walk);
                    lemma_pops_push(w0, e);
                    assert(walk.take(w0.len() as int) =~= w0);
                    assert forall|k: int| 0 <= k < w0.len() implies #[trigger] walk.take(k) =~= w0.take(k) by {}
                    assert forall|o: int| drawn_at(walk, o) <= matching@.len() + (if popped is Some { 1int } else { 0int }) by {
                        lemma_pops_push(w0, e);
                    }
                }
                match popped {
                    Some(request) => {
                        proof {
                            assert(lease_before.covers(offset as int));
                            assert(job.lease@.covers(offset as int));
                            assert(drained_counts@.covers(offset as int));
                        }
                        matching.push(request);
                        let ghost before = drained_counts@;
                        match drained_counts.get_offset_mut(offset) {
                            Some(count) => {
                                *count = *count + 1;
                            },
                            None => {},
                        }
                        proof {
                            lemma_seq_sum_update(before.items, offset - before.first, (before.items[offset - before.first] + 1) as usize);
                            assert forall|o: int| #[trigger] drained_counts@.covers(o) implies drained_counts@.get(o)->0 == (if o == 0 {
                                anchor_drained as int
                            } else {
                                0int
                            }) + drawn_at(walk, o) by {
                                lemma_pops_push(w0, e);
                                assert(before.covers(o));
                            }
                        }
                        direction = -direction;
                        failed_at_current_offset = false;
                    },
                    None => {
                        proof {
                            assert forall|o: int| #[trigger] drained_counts@.covers(o) implies drained_counts@.get(o)->0 == (if o == 0 {
                                anchor_drained as int
                            } else {
                                0int
                            }) + drawn_at(walk, o) by {
                                lemma_pops_push(w0, e);
                            }
                        }
                        if !failed_at_current_offset {
                            direction = -direction;
                            failed_at_current_offset = true;
                        } else {
                            current_absolute_offset = current_absolute_offset + 1;
                            direction = 1;
                            failed_at_current_offset = false;
                        }
                    },
                }
            }
            matchings.push(MatchmakingAssignment { grouped_requests: matching });
            successful_matchings = successful_matchings + 1;
            furthest_bucket_distance = current_absolute_offset;
        }
        proof {
            let pops = session_pops(job, lease.pops());
            let local = anchor_local_allocations as int;
            assert(pops.subrange(local * rpm, pops.len() as int) =~= walk);
            assert forall|k: int| 0 <= k < local * rpm implies #[trigger] pops[k] == anchor_pops[k] by {}
            assert forall|i: int| 0 <= i < local implies #[trigger] pops.subrange(i * rpm, i * rpm + rpm)
                =~= anchor_pops.subrange(i * rpm, i * rpm + rpm) by {
                assert(i * rpm + rpm <= local * rpm) by (nonlinear_arith)
                    requires
                        0 <= i < local,
                        rpm >= 0,
                ;
            }
        }

        let summary = GroundAllocationSessionSummary {
            successful_matchings,
            furthest_bucket_distance,
            completion_timestamp: now(),
            drained_counts,
        };
        let assigned = Assigned { ticket, lease, ground_allocation_control_signals: signals };
        (matchings, assigned.complete(summary))
    }
}

/// One more pop extends what the pops drew, how many they drew at each
/// offset, and where the widening walk stands, by that pop alone.
proof fn lemma_pops_push(log: Seq<(int, Option<MatchmakingRequest>)>, e: (int, Option<MatchmakingRequest>))
    ensures
        drawn(log.push(e)) == (match e.1 {
            Some(request) => drawn(log).push(request),
            None => drawn(log),
        }),
        forall|o: int| #[trigger] drawn_at(log.push(e), o) == drawn_at(log, o) + (if e.0 == o && e.1 is Some {
            1int
        } else {
            0int
        }),
        walk_state(log.push(e)) == ({
            let s = walk_state(log);
            if e.1 is Some {
                (-s.0, s.1, false, s.3 + 1)
            } else if !s.2 {
                (-s.0, s.1, true, s.3)
            } else {
                (1, s.1 + 1, false, s.3)
            }
        }),
{
    assert(log.push(e).drop_last() =~= log);
}

/// A fresh count for every bucket.
fn zero_count(_count: &usize) -> (zero: usize)
    ensures
        zero == 0,
{
    0
}

/// The sum of a window's counts, saturating at `usize::MAX`.
fn saturating_total(counts: &OffsetIndexedSlice<usize>) -> (total: usize)
    requires
        counts.base() >= 0,
    ensures
        total == (if seq_sum(counts@.items) <= usize::MAX { seq_sum(counts@.items) } else { usize::MAX as int }),
{
    let items = counts.iter();
    let ghost all = counts@.items;
    let mut total: usize = 0;
    let mut exact: Ghost<int> = Ghost(0);
    for count in it: items
        invariant
            it.seq().unref() == all,
            exact@ == seq_sum(all.subrange(0, it.index() as int)),
            total == (if exact@ <= usize::MAX { exact@ } else { usize::MAX as int }),
    {
        proof {
            assert(all.subrange(0, it.index() + 1).drop_last() =~= all.subrange(0, it.index() as int));
        }
        exact = Ghost(exact@ + *count);
        total = total.saturating_add(*count);
    }
    proof { assert(all.subrange(0, all.len() as int) =~= all); }
    total
}

} // verus!
