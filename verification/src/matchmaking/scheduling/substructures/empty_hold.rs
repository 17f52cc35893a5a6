//! Hold for presently empty tickets.

use vstd::prelude::*;

use crate::matchmaking::scheduling::states::{new_empty_ticket, Empty};
use crate::matchmaking::scheduling::tickets::TicketView;

verus! {

/// Number of occupied slots.
pub open spec fn count_some<A>(slots: Seq<Option<A>>) -> nat
    decreases slots.len(),
{
    if slots.len() == 0 {
        0
    } else {
        count_some(slots.drop_last()) + (if slots.last() is Some { 1nat } else { 0nat })
    }
}

pub proof fn lemma_count_some_update<A>(slots: Seq<Option<A>>, i: int, v: Option<A>)
    requires
        0 <= i < slots.len(),
    ensures
        count_some(slots.update(i, v)) == count_some(slots) - (if slots[i] is Some { 1int } else { 0int })
            + (if v is Some { 1int } else { 0int }),
    decreases slots.len(),
{
    if i == slots.len() - 1 {
        assert(slots.update(i, v).drop_last() =~= slots.drop_last());
    } else {
        lemma_count_some_update(slots.drop_last(), i, v);
        assert(slots.update(i, v).drop_last() =~= slots.drop_last().update(i, v));
    }
}

pub proof fn lemma_count_some_bound<A>(slots: Seq<Option<A>>)
    ensures
        count_some(slots) <= slots.len(),
    decreases slots.len(),
{
    if slots.len() > 0 {
        lemma_count_some_bound(slots.drop_last());
    }
}

/// Slots for empty tickets, one per anchor bucket.
#[derive(Debug)]
pub struct EmptyHold {
    holds: Vec<Option<Empty>>,
    ticket_count: usize,
}

impl EmptyHold {
    /// The ticket held at each anchor index, if any.
    pub closed spec fn slots(&self) -> Seq<Option<TicketView>> {
        Seq::new(
            self.holds@.len(),
            |i: int|
                match self.holds@[i] {
                    Some(e) => Some(e.ticket_view()),
                    None => None,
                },
        )
    }

    /// A held ticket sits at the slot of its own anchor, and the count is the
    /// number of held tickets.
    pub closed spec fn wf(&self) -> bool {
        &&& self.ticket_count == count_some(self.slots())
        &&& forall|i: int| 0 <= i < self.slots().len() ==> ((#[trigger] self.slots()[i]) matches Some(t) ==> t.anchor == i)
    }

    pub closed spec fn count_spec(&self) -> usize {
        self.ticket_count
    }

    pub fn new_with_issue(bucket_count: usize) -> (hold: EmptyHold)
        ensures
            hold.wf(),
            hold.count() == bucket_count,
            count_some(hold.slots()) == bucket_count,
            hold.slots().len() == bucket_count,
            forall|i: int|
                0 <= i < bucket_count ==> #[trigger] hold.slots()[i] == Some(
                    TicketView { anchor: i as usize, delta: 0, oldest: None },
                ),
    {
        let mut holds: Vec<Option<Empty>> = Vec::with_capacity(bucket_count);
        let mut i: usize = 0;
        while i < bucket_count
            invariant
                i <= bucket_count,
                holds@.len() == i,
                forall|j: int|
                    0 <= j < i ==> ((#[trigger] holds@[j]) matches Some(e) && e.ticket_view() == (TicketView {
                        anchor: j as usize,
                        delta: 0,
                        oldest: None,
                    })),
            decreases bucket_count - i,
        {
            holds.push(Some(new_empty_ticket(i)));
            i = i + 1;
        }
        let hold = EmptyHold { holds, ticket_count: bucket_count };
        proof {
            lemma_count_some_all(hold.slots());
        }
        hold
    }

    #[verifier::when_used_as_spec(count_spec)]
    pub fn count(&self) -> (n: usize)
        requires
            self.wf(),
        ensures
            n == self.count_spec(),
            n == count_some(self.slots()),
            n <= self.slots().len(),
    {
        proof {
            lemma_count_some_bound(self.slots());
        }
        self.ticket_count
    }

    /// Puts an empty ticket back into the slot of its anchor, which must be
    /// free.
    pub fn place(&mut self, ticket: Empty)
        requires
            old(self).wf(),
            ticket.ticket_view().anchor < old(self).slots().len(),
            old(self).slots()[ticket.ticket_view().anchor as int] is None,
        ensures
            final(self).wf(),
            final(self).slots() == old(self).slots().update(ticket.ticket_view().anchor as int, Some(ticket.ticket_view())),
            final(self).count() == old(self).count() + 1,
            count_some(final(self).slots()) == count_some(old(self).slots()) + 1,
    {
        let ghost old_slots = self.slots();
        let ghost new_view = ticket.ticket_view();
        proof {
            lemma_count_some_update(old_slots, new_view.anchor as int, Some(new_view));
            lemma_count_some_bound(old_slots.update(new_view.anchor as int, Some(new_view)));
        }
        let anchor = ticket.anchor_bucket_index();
        let _len = self.holds.len();
        self.holds.set(anchor, Some(ticket));
        self.ticket_count = self.ticket_count + 1;
        proof { assert(self.slots() =~= old_slots.update(anchor as int, Some(new_view))); }
    }

    /// Takes the ticket out of the slot of `anchor_bucket_index`, if one is held.
    pub fn take(&mut self, anchor_bucket_index: usize) -> (r: Option<Empty>)
        requires
            old(self).wf(),
            anchor_bucket_index < old(self).slots().len(),
        ensures
            final(self).wf(),
            match r {
                Some(e) => old(self).slots()[anchor_bucket_index as int] == Some(e.ticket_view())
                    && e.ticket_view().anchor == anchor_bucket_index,
                None => old(self).slots()[anchor_bucket_index as int] is None,
            },
            final(self).slots() == old(self).slots().update(anchor_bucket_index as int, None),
            final(self).count() == old(self).count() - (if r is Some { 1int } else { 0int }),
            count_some(final(self).slots()) == count_some(old(self).slots()) - (if r is Some { 1int } else { 0int }),
    {
        let ghost old_slots = self.slots();
        proof {
            lemma_count_some_update(old_slots, anchor_bucket_index as int, None);
            lemma_count_some_bound(old_slots);
        }
        let taken = self.holds[anchor_bucket_index].take();
        proof {
            if taken is Some {
                assert(old_slots[anchor_bucket_index as int] is Some);
            }
        }
        if taken.is_some() {
            self.ticket_count = self.ticket_count - 1;
        }
        proof { assert(self.slots() =~= old_slots.update(anchor_bucket_index as int, None)); }
        taken
    }
}

proof fn lemma_count_some_all<A>(slots: Seq<Option<A>>)
    requires
        forall|i: int| 0 <= i < slots.len() ==> (#[trigger] slots[i]) is Some,
    ensures
        count_some(slots) == slots.len(),
    decreases slots.len(),
{
    if slots.len() > 0 {
        lemma_count_some_all(slots.drop_last());
    }
}

} // verus!
