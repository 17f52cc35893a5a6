//! Priority lanes of the scheduler: the ready queue and the waiting lane.

use vstd::prelude::*;

use crate::matchmaking::scheduling::scheduling_table::ReadyPriority;
use crate::matchmaking::scheduling::states::{Contended, Normal, Waiting};

verus! {

/// The order on optional timestamps: `None` before any time, earlier times
/// before later ones.
pub open spec fn timestamp_le(a: Option<u64>, b: Option<u64>) -> bool {
    match (a, b) {
        (None, _) => true,
        (Some(_), None) => false,
        (Some(x), Some(y)) => x <= y,
    }
}

/// A normal ticket goes no later than another when its oldest request is no
/// younger.
pub open spec fn normal_precedes(a: Normal, b: Normal) -> bool {
    timestamp_le(a.ticket_view().oldest, b.ticket_view().oldest)
}

/// A contended ticket goes no later than another when it has been contended
/// for longer, or as long and its oldest request is no younger.
pub open spec fn contended_precedes(a: Contended, b: Contended) -> bool {
    ||| a.contention_start() < b.contention_start()
    ||| a.contention_start() == b.contention_start() && timestamp_le(
        a.ticket_view().oldest,
        b.ticket_view().oldest,
    )
}

/// Contended tickets go before normal ones; within a kind, the orders above.
pub open spec fn ready_precedes(a: ReadyPriority, b: ReadyPriority) -> bool {
    match (a, b) {
        (ReadyPriority::Contended(x), ReadyPriority::Contended(y)) => contended_precedes(x, y),
        (ReadyPriority::Contended(_), ReadyPriority::Normal(_)) => true,
        (ReadyPriority::Normal(_), ReadyPriority::Contended(_)) => false,
        (ReadyPriority::Normal(x), ReadyPriority::Normal(y)) => normal_precedes(x, y),
    }
}

/// A waiting ticket goes no later than another when it is due no later.
pub open spec fn waiting_precedes(a: Waiting, b: Waiting) -> bool {
    a.readmission() <= b.readmission()
}

fn timestamp_le_exec(a: Option<u64>, b: Option<u64>) -> (r: bool)
    ensures
        r == timestamp_le(a, b),
{
    match (a, b) {
        (None, _) => true,
        (Some(_), None) => false,
        (Some(x), Some(y)) => x <= y,
    }
}

fn ready_precedes_exec(a: &ReadyPriority, b: &ReadyPriority) -> (r: bool)
    ensures
        r == ready_precedes(*a, *b),
{
    match (a, b) {
        (ReadyPriority::Contended(x), ReadyPriority::Contended(y)) => {
            let xs = x.contention_start_timestamp();
            let ys = y.contention_start_timestamp();
            xs < ys || (xs == ys && timestamp_le_exec(
                x.ticket().oldest_request_timestamp(),
                y.ticket().oldest_request_timestamp(),
            ))
        },
        (ReadyPriority::Contended(_), ReadyPriority::Normal(_)) => true,
        (ReadyPriority::Normal(_), ReadyPriority::Contended(_)) => false,
        (ReadyPriority::Normal(x), ReadyPriority::Normal(y)) => timestamp_le_exec(
            x.ticket().oldest_request_timestamp(),
            y.ticket().oldest_request_timestamp(),
        ),
    }
}

/// Ready tickets, handed out contended first, then by age of their oldest
/// request.
pub struct ReadyQueue {
    items: Vec<ReadyPriority>,
}

impl View for ReadyQueue {
    type V = Seq<ReadyPriority>;

    closed spec fn view(&self) -> Seq<ReadyPriority> {
        self.items@
    }
}

impl ReadyQueue {
    pub fn new() -> (q: ReadyQueue)
        ensures
            q@ == Seq::<ReadyPriority>::empty(),
    {
        ReadyQueue { items: Vec::new() }
    }

    pub fn with_capacity(capacity: usize) -> (q: ReadyQueue)
        ensures
            q@ == Seq::<ReadyPriority>::empty(),
    {
        ReadyQueue { items: Vec::with_capacity(capacity) }
    }

    pub fn len(&self) -> (n: usize)
        ensures
            n == self@.len(),
    {
        self.items.len()
    }

    pub fn is_empty(&self) -> (b: bool)
        ensures
            b == (self@.len() == 0),
    {
        self.items.len() == 0
    }

    pub fn push(&mut self, item: ReadyPriority)
        ensures
            final(self)@ == old(self)@.push(item),
    {
        self.items.push(item);
    }

    /// Removes a ticket that goes no later than any other, if any is queued.
    pub fn pop(&mut self) -> (r: Option<ReadyPriority>)
        ensures
            old(self)@.len() == 0 ==> r is None && final(self)@ == old(self)@,
            old(self)@.len() > 0 ==> (r matches Some(item) && exists|i: int|
                0 <= i < old(self)@.len() && old(self)@[i] == item && final(self)@ == old(self)@.remove(i)
                    && forall|j: int| 0 <= j < old(self)@.len() ==> ready_precedes(item, #[trigger] old(self)@[j])),
    {
        if self.items.len() == 0 {
            return None;
        }
        let mut best: usize = 0;
        let mut i: usize = 1;
        while i < self.items.len()
            invariant
                0 <= best < i <= self.items@.len(),
                forall|j: int| 0 <= j < i ==> ready_precedes(self.items@[best as int], #[trigger] self.items@[j]),
            decreases self.items@.len() - i,
        {
            if !ready_precedes_exec(&self.items[best], &self.items[i]) {
                best = i;
            }
            i = i + 1;
        }
        let ghost old_items = self.items@;
        let item = self.items.remove(best);
        proof {
            assert(old_items[best as int] == item);
        }
        Some(item)
    }
}

/// Waiting tickets, handed out earliest due first.
pub struct WaitingLane {
    items: Vec<Waiting>,
}

impl View for WaitingLane {
    type V = Seq<Waiting>;

    closed spec fn view(&self) -> Seq<Waiting> {
        self.items@
    }
}

impl WaitingLane {
    pub fn new() -> (q: WaitingLane)
        ensures
            q@ == Seq::<Waiting>::empty(),
    {
        WaitingLane { items: Vec::new() }
    }

    pub fn with_capacity(capacity: usize) -> (q: WaitingLane)
        ensures
            q@ == Seq::<Waiting>::empty(),
    {
        WaitingLane { items: Vec::with_capacity(capacity) }
    }

    pub fn len(&self) -> (n: usize)
        ensures
            n == self@.len(),
    {
        self.items.len()
    }

    pub fn is_empty(&self) -> (b: bool)
        ensures
            b == (self@.len() == 0),
    {
        self.items.len() == 0
    }

    pub fn push(&mut self, item: Waiting)
        ensures
            final(self)@ == old(self)@.push(item),
    {
        self.items.push(item);
    }

    /// The index of a ticket due no later than any other.
    fn earliest(&self) -> (best: usize)
        requires
            self@.len() > 0,
        ensures
            best < self@.len(),
            forall|j: int| 0 <= j < self@.len() ==> waiting_precedes(self@[best as int], #[trigger] self@[j]),
    {
        let mut best: usize = 0;
        let mut i: usize = 1;
        while i < self.items.len()
            invariant
                0 <= best < i <= self.items@.len(),
                forall|j: int| 0 <= j < i ==> waiting_precedes(self.items@[best as int], #[trigger] self.items@[j]),
            decreases self.items@.len() - i,
        {
            if self.items[i].next_readmission_timestamp() < self.items[best].next_readmission_timestamp() {
                best = i;
            }
            i = i + 1;
        }
        best
    }

    /// A ticket due no later than any other, if any is waiting.
    pub fn peek(&self) -> (r: Option<&Waiting>)
        ensures
            self@.len() == 0 ==> r is None,
            self@.len() > 0 ==> (r matches Some(item) && self@.contains(*item) && forall|j: int|
                0 <= j < self@.len() ==> waiting_precedes(*item, #[trigger] self@[j])),
    {
        if self.items.len() == 0 {
            return None;
        }
        let best = self.earliest();
        Some(&self.items[best])
    }

    /// Removes a ticket due no later than any other, if any is waiting.
    pub fn pop(&mut self) -> (r: Option<Waiting>)
        ensures
            old(self)@.len() == 0 ==> r is None && final(self)@ == old(self)@,
            old(self)@.len() > 0 ==> (r matches Some(item) && exists|i: int|
                0 <= i < old(self)@.len() && old(self)@[i] == item && final(self)@ == old(self)@.remove(i)
                    && forall|j: int| 0 <= j < old(self)@.len() ==> waiting_precedes(item, #[trigger] old(self)@[j])),
    {
        if self.items.len() == 0 {
            return None;
        }
        let best = self.earliest();
        let ghost old_items = self.items@;
        let item = self.items.remove(best);
        proof {
            assert(old_items[best as int] == item);
        }
        Some(item)
    }
}

} // verus!
